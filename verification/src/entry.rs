//! Log entries and the reading of a log.

use crate::text::{
    chars_of, find_char, first_index_of, lemma_first_index_of, lemma_lines_len, lines, next_line,
    string_of,
};
use crate::timestamp::{
    matches_timestamp_layout, parse_timestamp, shows_date, timestamp_of, Timestamp,
};
use vstd::prelude::*;
use vstd::slice::slice_subrange;

verus! {

/// One sighting of a cookie.
#[derive(Clone, Debug, PartialEq, Eq)]
pub struct LogEntry {
    pub cookie: String,
    pub timestamp: Timestamp,
}

/// A log entry as a mathematical value.
pub struct LogEntryView {
    pub cookie: Seq<char>,
    pub timestamp: Timestamp,
}

impl View for LogEntry {
    type V = LogEntryView;

    open spec fn view(&self) -> LogEntryView {
        LogEntryView { cookie: self.cookie@, timestamp: self.timestamp }
    }
}

/// Why a line is no record.
#[derive(Clone, Copy, Debug, PartialEq, Eq, Structural)]
pub enum RecordError {
    /// The line has no comma.
    MalformedRecord,
    /// What follows the first comma is no timestamp.
    MalformedTimestamp,
}

/// The entry that a line denotes. The line is cut at its first comma: the
/// cookie stands before it, the timestamp is all that follows.
pub open spec fn record_of(line: Seq<char>) -> Result<LogEntryView, RecordError> {
    let comma = first_index_of(line, ',');
    if 0 <= comma < line.len() {
        entry_of(line.subrange(0, comma), timestamp_of(line.subrange(comma + 1, line.len() as int)))
    } else {
        Err(RecordError::MalformedRecord)
    }
}

/// The entry made of a cookie and of what the timestamp field was read as.
pub open spec fn entry_of(cookie: Seq<char>, timestamp: Option<Timestamp>) -> Result<
    LogEntryView,
    RecordError,
> {
    match timestamp {
        Some(t) => Ok(LogEntryView { cookie, timestamp: t }),
        None => Err(RecordError::MalformedTimestamp),
    }
}

/// What the reading of one line returned, as a mathematical value.
pub open spec fn read(r: Result<LogEntry, RecordError>) -> Result<LogEntryView, RecordError> {
    match r {
        Ok(e) => Ok(e@),
        Err(kind) => Err(kind),
    }
}

impl LogEntry {
    /// Reads the entry that a line of the log denotes.
    pub fn new(entry: &str) -> (r: Result<LogEntry, RecordError>)
        ensures
            read(r) == record_of(entry@),
    {
        let line = chars_of(entry);
        LogEntry::from_chars(line.as_slice())
    }

    /// Reads the entry that a line denotes, the line given by its
    /// characters.
    pub fn from_chars(line: &[char]) -> (r: Result<LogEntry, RecordError>)
        ensures
            read(r) == record_of(line@),
    {
        let comma = find_char(line, 0, ',');
        proof {
            assert(line@.subrange(0, line@.len() as int) =~= line@);
        }
        if comma == line.len() {
            return Err(RecordError::MalformedRecord);
        }
        let cookie = string_of(slice_subrange(line, 0, comma));
        let timestamp = parse_timestamp(slice_subrange(line, comma + 1, line.len()));
        LogEntry::assemble(cookie, timestamp)
    }

    /// Makes the entry of a cookie and of what its timestamp field was read
    /// as: there is none where the field was no timestamp.
    pub fn assemble(cookie: String, timestamp: Option<Timestamp>) -> (r: Result<
        LogEntry,
        RecordError,
    >)
        ensures
            read(r) == entry_of(cookie@, timestamp),
    {
        match timestamp {
            Some(t) => Ok(LogEntry { cookie, timestamp: t }),
            None => Err(RecordError::MalformedTimestamp),
        }
    }
}

/// Why a text is no log: the line that is no record, counted from 1 with
/// the header, and what is wrong with it.
#[derive(Clone, Copy, Debug, PartialEq, Eq, Structural)]
pub struct ParseError {
    pub line: usize,
    pub kind: RecordError,
}

/// The entries of a vector as mathematical values.
pub open spec fn views(entries: Seq<LogEntry>) -> Seq<LogEntryView> {
    entries.map_values(|e: LogEntry| e@)
}

/// What the lines from the one at index `i` on denote: their entries in
/// the order of the lines, empty lines passed over, or the first line among
/// them that is neither empty nor a record.
pub open spec fn entries_from(ls: Seq<Seq<char>>, i: int) -> Result<Seq<LogEntryView>, ParseError>
    decreases ls.len() - i,
{
    if i < 0 || i >= ls.len() {
        Ok(Seq::empty())
    } else if ls[i].len() == 0 {
        entries_from(ls, i + 1)
    } else {
        match record_of(ls[i]) {
            Err(kind) => Err(ParseError { line: (i + 1) as usize, kind }),
            Ok(e) => after(seq![e], entries_from(ls, i + 1)),
        }
    }
}

/// `rest` with the entries `first` before it, where `rest` is entries.
pub open spec fn after(first: Seq<LogEntryView>, rest: Result<Seq<LogEntryView>, ParseError>)
    -> Result<Seq<LogEntryView>, ParseError> {
    match rest {
        Ok(entries) => Ok(first + entries),
        Err(e) => Err(e),
    }
}

/// What a text denotes as a log. Its first line is a header and is passed
/// over, whatever it holds.
pub open spec fn log_of(text: Seq<char>) -> Result<Seq<LogEntryView>, ParseError> {
    entries_from(lines(text), 1)
}

/// What `parse_logs` returned, as a mathematical value.
pub open spec fn outcome(r: Result<Vec<LogEntry>, ParseError>) -> Result<
    Seq<LogEntryView>,
    ParseError,
> {
    match r {
        Ok(entries) => Ok(views(entries@)),
        Err(e) => Err(e),
    }
}

/// Reads a log: the entries of its records, in the order of the lines. The
/// header and empty lines give no entry. A line that is neither empty nor a
/// record makes the whole text fail.
pub fn parse_logs(input: &str) -> (r: Result<Vec<LogEntry>, ParseError>)
    ensures
        outcome(r) == log_of(input@),
{
    let text = chars_of(input);
    let v = text.as_slice();
    let ghost ls = lines(v@);
    let mut entries: Vec<LogEntry> = Vec::new();
    proof {
        lemma_lines_len(v@);
        assert(views(entries@) =~= Seq::<LogEntryView>::empty());
    }
    if v.len() == 0 {
        return Ok(entries);
    }
    proof {
        assert(v@.subrange(0, v@.len() as int) =~= v@);
    }
    let (_, after_header) = next_line(v, 0);
    let mut pos: usize = after_header;
    let mut index: usize = 1;
    proof {
        assert(after(views(entries@), entries_from(ls, 1)) == entries_from(ls, 1)) by {
            match entries_from(ls, 1) {
                Ok(es) => {
                    assert(views(entries@) + es =~= es);
                },
                Err(_) => {},
            }
        }
    }
    while pos < v.len()
        invariant
            v@ == input@,
            pos <= v@.len(),
            1 <= index <= ls.len() <= v@.len(),
            ls == lines(v@),
            ls.skip(index as int) == lines(v@.subrange(pos as int, v@.len() as int)),
            log_of(v@) == after(views(entries@), entries_from(ls, index as int)),
        decreases v@.len() - pos,
    {
        let ghost rest = v@.subrange(pos as int, v@.len() as int);
        let ghost before = entries@;
        let (end, next) = next_line(v, pos);
        let line = slice_subrange(v, pos, end);
        proof {
            assert(ls.skip(index as int).len() > 0);
            assert(ls[index as int] == ls.skip(index as int)[0]);
            assert(ls.skip(index + 1) =~= ls.skip(index as int).skip(1));
        }
        if line.len() != 0 {
            match LogEntry::from_chars(line) {
                Ok(e) => {
                    entries.push(e);
                    proof {
                        assert(views(entries@) =~= views(before) + seq![e@]);
                        match entries_from(ls, index + 1) {
                            Ok(es) => {
                                assert(views(before) + (seq![e@] + es) =~= views(entries@) + es);
                            },
                            Err(_) => {},
                        }
                    }
                },
                Err(kind) => {
                    return Err(ParseError { line: index + 1, kind });
                },
            }
        }
        index += 1;
        pos = next;
    }
    proof {
        assert(lines(v@.subrange(pos as int, v@.len() as int)).len() == 0);
        assert(ls.skip(index as int).len() == 0);
        assert(views(entries@) + Seq::<LogEntryView>::empty() =~= views(entries@));
    }
    Ok(entries)
}

/// The test that tells the lines that are not empty.
pub open spec fn not_empty() -> spec_fn(Seq<char>) -> bool {
    |line: Seq<char>| line.len() > 0
}

/// The lines of a text that should be records: those after the first that
/// are not empty.
pub open spec fn record_lines(text: Seq<char>) -> Seq<Seq<char>> {
    let ls = lines(text);
    if ls.len() > 0 {
        ls.skip(1).filter(not_empty())
    } else {
        ls
    }
}

/// Whether a line has no comma, or has after its first comma what is not
/// laid out as a timestamp.
pub open spec fn is_malformed(line: Seq<char>) -> bool {
    let comma = first_index_of(line, ',');
    comma >= line.len() || !matches_timestamp_layout(line.subrange(comma + 1, line.len() as int))
}

/// The lines from index `i` on give an entry for each of them that is not
/// empty, in their order, or fail where one of those is no record.
pub proof fn lemma_entries_from(ls: Seq<Seq<char>>, i: int)
    requires
        0 <= i <= ls.len(),
    ensures
        match entries_from(ls, i) {
            Ok(es) => {
                &&& es.len() == ls.skip(i).filter(not_empty()).len()
                &&& forall|k: int|
                    0 <= k < es.len() ==> record_of(
                        #[trigger] ls.skip(i).filter(not_empty())[k],
                    ) == Ok::<LogEntryView, RecordError>(es[k])
            },
            Err(e) => exists|k: int|
                0 <= k < ls.skip(i).filter(not_empty()).len() && record_of(
                    #[trigger] ls.skip(i).filter(not_empty())[k],
                ) == Err::<LogEntryView, RecordError>(e.kind),
        },
    decreases ls.len() - i,
{
    let here = ls.skip(i).filter(not_empty());
    if i == ls.len() {
        assert(ls.skip(i) =~= Seq::<Seq<char>>::empty());
        assert(here.len() == 0) by {
            ls.skip(i).lemma_filter_len(not_empty());
        }
    } else {
        let later = ls.skip(i + 1).filter(not_empty());
        lemma_entries_from(ls, i + 1);
        assert(ls.skip(i) =~= seq![ls[i]] + ls.skip(i + 1));
        ls.skip(i + 1).lemma_filter_prepend(ls[i], not_empty());
        if ls[i].len() == 0 {
            assert(here =~= later);
        } else {
            assert(here =~= seq![ls[i]] + later);
            assert(here[0] == ls[i]);
            assert(forall|k: int| 0 <= k < later.len() ==> later[k] == here[k + 1]);
            match record_of(ls[i]) {
                Err(kind) => {},
                Ok(entry) => {
                    match entries_from(ls, i + 1) {
                        Ok(es) => {
                            let all = seq![entry] + es;
                            assert forall|k: int| 0 <= k < all.len() implies record_of(
                                #[trigger] here[k],
                            ) == Ok::<LogEntryView, RecordError>(all[k]) by {
                                if k > 0 {
                                    assert(here[k] == later[k - 1]);
                                    assert(all[k] == es[k - 1]);
                                }
                            }
                        },
                        Err(e) => {
                            let k = choose|k: int|
                                0 <= k < later.len() && record_of(#[trigger] later[k]) == Err::<
                                    LogEntryView,
                                    RecordError,
                                >(e.kind);
                            assert(here[k + 1] == later[k]);
                        },
                    }
                },
            }
        }
    }
}

/// A text that is read without error gives one entry for each line after
/// the first that is not empty, in the order of the lines: the entry that
/// the line denotes.
pub proof fn lemma_entry_per_record(text: Seq<char>)
    ensures
        log_of(text) matches Ok(es) ==> {
            &&& es.len() == record_lines(text).len()
            &&& forall|k: int|
                0 <= k < es.len() ==> record_of(#[trigger] record_lines(text)[k]) == Ok::<
                    LogEntryView,
                    RecordError,
                >(es[k])
        },
{
    let ls = lines(text);
    if ls.len() > 0 {
        lemma_entries_from(ls, 1);
    }
}

/// A text is read without error exactly where each line after the first
/// that is not empty is a record.
pub proof fn lemma_reads_iff_all_records(text: Seq<char>)
    ensures
        log_of(text) is Ok <==> forall|k: int|
            0 <= k < record_lines(text).len() ==> record_of(#[trigger] record_lines(text)[k]) is Ok,
{
    let ls = lines(text);
    if ls.len() > 0 {
        lemma_entries_from(ls, 1);
    }
}

/// One line, after the first and not empty, that has no comma, or whose
/// text after the first comma is not laid out as a timestamp, makes the
/// whole text fail.
pub proof fn lemma_malformed_line_fails(text: Seq<char>, k: int)
    requires
        0 <= k < record_lines(text).len(),
        is_malformed(record_lines(text)[k]),
    ensures
        log_of(text) is Err,
{
    lemma_reads_iff_all_records(text);
    assert(record_of(record_lines(text)[k]) is Err);
}

/// A text with no line feed before its last character has no line after
/// the first: it holds no entry and is no error. So the empty text, and a
/// header alone.
pub proof fn lemma_header_alone(text: Seq<char>)
    requires
        first_index_of(text, '\n') >= text.len() - 1,
    ensures
        lines(text).len() <= 1,
        log_of(text) == Ok::<Seq<LogEntryView>, ParseError>(Seq::empty()),
{
    lemma_first_index_of(text, '\n');
    if text.len() > 0 {
        let n = first_index_of(text, '\n');
        if n == text.len() - 1 {
            let tail = text.subrange(n + 1, text.len() as int);
            assert(lines(tail).len() == 0);
        }
    }
}

/// Where the lines from index `i` on fail, the error names the first of
/// them that is neither empty nor a record, and says why it is none.
pub proof fn lemma_error_from(ls: Seq<Seq<char>>, i: int)
    requires
        0 <= i,
        ls.len() <= usize::MAX,
    ensures
        entries_from(ls, i) matches Err(e) ==> {
            &&& i < e.line <= ls.len()
            &&& ls[e.line - 1].len() > 0
            &&& record_of(ls[e.line - 1]) == Err::<LogEntryView, RecordError>(e.kind)
            &&& forall|j: int|
                i <= j < e.line - 1 ==> (#[trigger] ls[j]).len() == 0 || record_of(ls[j]) is Ok
        },
    decreases ls.len() - i,
{
    if i < ls.len() {
        lemma_error_from(ls, i + 1);
    }
}

/// Where a text fails, the error names the first line after the header
/// that is neither empty nor a record, and says why it is none.
pub proof fn lemma_error_names_first_bad_line(text: Seq<char>)
    requires
        text.len() <= usize::MAX,
    ensures
        log_of(text) matches Err(e) ==> {
            &&& 1 < e.line <= lines(text).len()
            &&& lines(text)[e.line - 1].len() > 0
            &&& record_of(lines(text)[e.line - 1]) == Err::<LogEntryView, RecordError>(e.kind)
            &&& forall|j: int|
                1 <= j < e.line - 1 ==> (#[trigger] lines(text)[j]).len() == 0 || record_of(
                    lines(text)[j],
                ) is Ok
        },
{
    lemma_lines_len(text);
    lemma_error_from(lines(text), 1);
}

/// Two readings of one text agree: in the entries, their order and their
/// values, or in the error.
pub proof fn lemma_parse_logs_repeatable(
    text: Seq<char>,
    first: Result<Vec<LogEntry>, ParseError>,
    second: Result<Vec<LogEntry>, ParseError>,
)
    requires
        outcome(first) == log_of(text),
        outcome(second) == log_of(text),
    ensures
        outcome(first) == outcome(second),
{
}

/// The entry of a record names the cookie that stands before the first
/// comma of its line, and bears the date that the line writes after it.
pub proof fn lemma_entry_is_as_written(line: Seq<char>)
    ensures
        record_of(line) matches Ok(e) ==> {
            let comma = first_index_of(line, ',');
            &&& 0 <= comma < line.len()
            &&& e.cookie == line.subrange(0, comma)
            &&& !e.cookie.contains(',')
            &&& shows_date(line.subrange(comma + 1, line.len() as int), e.timestamp)
        },
{
    lemma_first_index_of(line, ',');
}

} // verus!
