//! The log reader: a restartable stream of raw three-field records that
//! stitches the per-day log files of a window together, oldest first.

use vstd::prelude::*;

verus! {

/// Why a pass over the log stopped.
#[derive(Clone, Copy, Debug, PartialEq, Eq, Structural)]
pub enum ReadError {
    /// A log file of the window exists but could not be read.
    Io,
    /// A file is not a well-formed table, or a record lacks a field or holds a
    /// timestamp that is not an integer.
    Parse,
    /// The system clock could not be read to end the replay.
    Clock,
}

/// One day's log file as the caller found it.
pub enum DayFile {
    /// No file for that day: it is skipped.
    Missing,
    /// The file exists but could not be read.
    Unreadable,
    /// The file's bytes.
    Contents(Vec<u8>),
}

/// What the reader yields: the fields of one record, or the failure at that point.
pub type RawItem = Result<Vec<String>, ReadError>;

/// The mathematical content of a `RawItem`.
pub type ItemView = Result<Seq<Seq<char>>, ReadError>;

/// The view of a yielded item.
pub open spec fn item_view(i: RawItem) -> ItemView {
    match i {
        Ok(fields) => Ok(fields.deep_view()),
        Err(e) => Err(e),
    }
}

/// The rows that the `csv` crate reads from `text` as a table with a header
/// row (the header itself not included), or `None` where it reports an error.
pub uninterp spec fn csv_rows(text: Seq<u8>) -> Option<Seq<Seq<Seq<char>>>>;

#[verifier::external_type_specification]
#[verifier::external_body]
pub struct ExCsvError(csv::Error);

/// Relies on `csv::ReaderBuilder` (with a header row) and its records
/// iterator over an in-memory slice: the result depends on the bytes alone.
#[verifier::external_body]
fn read_rows(text: &[u8]) -> (r: Result<Vec<Vec<String>>, csv::Error>)
    ensures
        match r {
            Ok(rows) => csv_rows(text@) == Some(rows.deep_view()),
            Err(_) => csv_rows(text@) is None,
        },
{
    let mut rdr = csv::ReaderBuilder::new().has_headers(true).from_reader(text);
    let mut rows = Vec::new();
    for rec in rdr.records() {
        rows.push(rec?.iter().map(String::from).collect());
    }
    Ok(rows)
}

/// The items that one day's file contributes to the stream.
pub open spec fn file_items(f: DayFile) -> Seq<ItemView> {
    match f {
        DayFile::Missing => Seq::empty(),
        DayFile::Unreadable => seq![Err(ReadError::Io)],
        DayFile::Contents(bytes) => match csv_rows(bytes@) {
            Some(rows) => rows.map_values(|r: Seq<Seq<char>>| Ok(r)),
            None => seq![Err(ReadError::Parse)],
        },
    }
}

/// The whole stream of a window: each file's items, oldest file first.
pub open spec fn stream(files: Seq<DayFile>) -> Seq<ItemView>
    decreases files.len(),
{
    if files.len() == 0 {
        Seq::empty()
    } else {
        stream(files.drop_last()) + file_items(files.last())
    }
}

/// A cursor over the stream of a window's day files.
pub struct LogReader {
    files: Vec<DayFile>,
    file_idx: usize,
    rows: Vec<Vec<String>>,
    failure: Option<ReadError>,
    row_idx: usize,
}

/// The items of the file that is open, as held: its rows, or its one failure.
pub open spec fn held_items(rows: Seq<Vec<String>>, failure: Option<ReadError>) -> Seq<ItemView> {
    match failure {
        Some(e) => seq![Err(e)],
        None => rows.map_values(|r: Vec<String>| Ok(r.deep_view())),
    }
}

/// Reads one day's file into rows, or the failure that takes its place.
fn open_file(f: &DayFile) -> (r: (Vec<Vec<String>>, Option<ReadError>))
    ensures
        held_items(r.0@, r.1) =~= file_items(*f),
{
    match f {
        DayFile::Missing => (Vec::new(), None),
        DayFile::Unreadable => (Vec::new(), Some(ReadError::Io)),
        DayFile::Contents(bytes) => match read_rows(bytes.as_slice()) {
            Ok(rows) => {
                proof {
                    assert(rows.deep_view() =~= rows@.map_values(|r: Vec<String>| r.deep_view()));
                }
                (rows, None)
            },
            Err(_) => (Vec::new(), Some(ReadError::Parse)),
        },
    }
}

impl LogReader {
    /// The files of the window, oldest first.
    pub closed spec fn files(&self) -> Seq<DayFile> {
        self.files@
    }

    /// Everything a full pass yields.
    pub open spec fn items(&self) -> Seq<ItemView> {
        stream(self.files())
    }

    /// How many items have been yielded since the last reset.
    pub closed spec fn position(&self) -> int {
        stream(self.files@.take(self.file_idx as int)).len() + self.row_idx
    }

    /// The reader's internal consistency.
    pub closed spec fn wf(&self) -> bool {
        &&& self.file_idx <= self.files@.len()
        &&& self.row_idx <= held_items(self.rows@, self.failure).len()
        &&& self.file_idx < self.files@.len() ==> held_items(self.rows@, self.failure) == file_items(
            self.files@[self.file_idx as int],
        )
        &&& self.file_idx == self.files@.len() ==> held_items(self.rows@, self.failure).len() == 0
    }

    /// A reader over `files` (oldest first), positioned at the start.
    pub fn new(files: Vec<DayFile>) -> (r: LogReader)
        ensures
            r.wf(),
            r.files() == files@,
            r.position() == 0,
    {
        let mut r = LogReader { files, file_idx: 0, rows: Vec::new(), failure: None, row_idx: 0 };
        r.reset();
        r
    }

    /// Rewinds to the first record of the first file.
    pub fn reset(&mut self)
        ensures
            final(self).wf(),
            final(self).files() == old(self).files(),
            final(self).position() == 0,
    {
        self.file_idx = 0;
        self.row_idx = 0;
        if self.files.len() > 0 {
            let (rows, failure) = open_file(&self.files[0]);
            self.rows = rows;
            self.failure = failure;
        } else {
            self.rows = Vec::new();
            self.failure = None;
        }
        assert(self.files@.take(0) =~= Seq::<DayFile>::empty());
    }

    /// Whether no day file of the window exists.
    pub fn is_empty(&self) -> (r: bool)
        ensures
            r == (forall|i: int| 0 <= i < self.files().len() ==> (#[trigger] self.files()[i]) is Missing),
    {
        let mut i: usize = 0;
        while i < self.files.len()
            invariant
                i <= self.files@.len(),
                forall|j: int| 0 <= j < i ==> (#[trigger] self.files@[j]) is Missing,
            decreases self.files.len() - i,
        {
            match &self.files[i] {
                DayFile::Missing => {},
                _ => {
                    return false;
                },
            }
            i = i + 1;
        }
        true
    }

    /// Yields the next item of the stream, or `None` at its end.
    pub fn next(&mut self) -> (r: Option<RawItem>)
        requires
            old(self).wf(),
        ensures
            final(self).wf(),
            final(self).files() == old(self).files(),
            0 <= old(self).position() <= old(self).items().len(),
            old(self).position() < old(self).items().len() ==> (r matches Some(i) && item_view(i)
                == old(self).items()[old(self).position()]) && final(self).position() == old(
                self,
            ).position() + 1,
            old(self).position() == old(self).items().len() ==> r is None && final(self).position()
                == old(self).position(),
    {
        proof {
            self.lemma_position_bounds();
        }
        loop
            invariant
                self.wf(),
                self.files() == old(self).files(),
                self.position() == old(self).position(),
            decreases self.files@.len() - self.file_idx, held_items(self.rows@, self.failure).len()
                - self.row_idx,
        {
            let held: usize = match self.failure {
                Some(_) => 1,
                None => self.rows.len(),
            };
            if self.row_idx < held {
                proof {
                    self.lemma_item_at();
                }
                let i = self.row_idx;
                self.row_idx = self.row_idx + 1;
                let item = match self.failure {
                    Some(e) => Err(e),
                    None => Ok(self.rows[i].clone()),
                };
                return Some(item);
            }
            if self.file_idx >= self.files.len() {
                proof {
                    self.lemma_position_bounds();
                }
                return None;
            }
            let ghost before = self.files@.take(self.file_idx as int);
            proof {
                assert(self.files@.take(self.file_idx + 1).drop_last() =~= before);
            }
            self.file_idx = self.file_idx + 1;
            self.row_idx = 0;
            if self.file_idx < self.files.len() {
                let (rows, failure) = open_file(&self.files[self.file_idx]);
                self.rows = rows;
                self.failure = failure;
            } else {
                self.rows = Vec::new();
                self.failure = None;
            }
        }
    }

    proof fn lemma_position_bounds(&self)
        requires
            self.wf(),
        ensures
            0 <= self.position() <= self.items().len(),
            self.file_idx == self.files@.len() ==> self.position() == self.items().len(),
    {
        let k = self.file_idx as int;
        lemma_stream_prefix(self.files@, k);
        if k == self.files@.len() {
            assert(self.files@.take(k) =~= self.files@);
        } else {
            lemma_stream_prefix(self.files@, k + 1);
            let t = self.files@.take(k + 1);
            assert(t.drop_last() =~= self.files@.take(k));
            assert(t.last() == self.files@[k]);
            assert(stream(t) == stream(t.drop_last()) + file_items(t.last()));
        }
    }

    proof fn lemma_item_at(&self)
        requires
            self.wf(),
            self.row_idx < held_items(self.rows@, self.failure).len(),
        ensures
            self.file_idx < self.files@.len(),
            self.position() < self.items().len(),
            self.items()[self.position()] == held_items(self.rows@, self.failure)[self.row_idx as int],
    {
        let k = self.file_idx as int;
        lemma_stream_prefix(self.files@, k + 1);
        let t = self.files@.take(k + 1);
        assert(t.drop_last() =~= self.files@.take(k));
        assert(t.last() == self.files@[k]);
        assert(stream(t) == stream(t.drop_last()) + file_items(t.last()));
        let p = self.position();
        assert(stream(t)[p] == file_items(self.files@[k])[self.row_idx as int]);
    }
}

/// The stream of a prefix of the files is a prefix of the whole stream.
proof fn lemma_stream_prefix(files: Seq<DayFile>, k: int)
    requires
        0 <= k <= files.len(),
    ensures
        stream(files.take(k)).len() <= stream(files).len(),
        forall|i: int|
            0 <= i < stream(files.take(k)).len() ==> #[trigger] stream(files.take(k))[i] == stream(
                files,
            )[i],
    decreases files.len(),
{
    if k == files.len() {
        assert(files.take(k) =~= files);
    } else {
        assert(files.drop_last().take(k) =~= files.take(k));
        lemma_stream_prefix(files.drop_last(), k);
    }
}

} // verus!
