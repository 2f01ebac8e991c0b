//! Timestamps of log records: the layout of the text and its reading.

use crate::date::{date_slot, shows, starts_with_date, FilterDate};
use crate::digits::{is_digit, is_digit_char};
use crate::text::string_of;
use vstd::prelude::*;

verus! {

/// What a log record says of the moment it was written: the calendar date
/// and the time of day as the record gives them, and how far that clock is
/// ahead of UTC.
#[derive(Clone, Copy, Debug, PartialEq, Eq, Structural)]
pub struct Timestamp {
    pub year: i32,
    pub month: u32,
    pub day: u32,
    pub hour: u32,
    pub minute: u32,
    pub second: u32,
    /// Seconds east of UTC.
    pub offset_seconds: i32,
}

/// The format by which a timestamp is read.
pub open spec fn timestamp_format() -> Seq<char> {
    "%Y-%m-%dT%H:%M:%S%z"@
}

/// Whether `c` may stand at position `i` of a timestamp, which is laid out
/// as `YYYY-MM-DDThh:mm:ss±hhmm`.
pub open spec fn timestamp_slot(i: int, c: char) -> bool {
    if i == 4 || i == 7 {
        c == '-'
    } else if i == 10 {
        c == 'T'
    } else if i == 13 || i == 16 {
        c == ':'
    } else if i == 19 {
        c == '+' || c == '-'
    } else {
        is_digit(c)
    }
}

/// Whether `s` is laid out as `YYYY-MM-DDThh:mm:ss±hhmm`, with nothing
/// before or after.
pub open spec fn matches_timestamp_layout(s: Seq<char>) -> bool {
    &&& s.len() == 24
    &&& forall|i: int| 0 <= i < 24 ==> timestamp_slot(i, #[trigger] s[i])
}

/// The calendar date of a timestamp.
pub open spec fn date_of(t: Timestamp) -> FilterDate {
    FilterDate { year: t.year, month: t.month, day: t.day }
}

/// Whether the date of `t` is the one that `s` writes in its first ten
/// characters.
pub open spec fn shows_date(s: Seq<char>, t: Timestamp) -> bool {
    shows(s, date_of(t))
}

/// A timestamp begins with a date.
pub proof fn lemma_timestamp_starts_with_date(s: Seq<char>)
    requires
        matches_timestamp_layout(s),
    ensures
        starts_with_date(s),
{
    assert forall|i: int| 0 <= i < 10 implies date_slot(i, #[trigger] s[i]) by {
        assert(timestamp_slot(i, s[i]));
    }
}

/// What `chrono::DateTime::parse_from_str` makes of `text` under `format`:
/// the fields of the date and time it returns, or `None` where it returns
/// an error.
pub uninterp spec fn chrono_datetime(text: Seq<char>, format: Seq<char>) -> Option<Timestamp>;

/// The timestamp that a text of the right layout denotes, given what it
/// was read as: the reading counts where it bears the date that the text
/// writes.
pub open spec fn confirmed(s: Seq<char>, read: Option<Timestamp>) -> Option<Timestamp> {
    match read {
        Some(t) => if shows_date(s, t) {
            Some(t)
        } else {
            None
        },
        None => None,
    }
}

/// The timestamp that a field of a record denotes: the text must be laid
/// out as `YYYY-MM-DDThh:mm:ss±hhmm` and name a date, a time of day and an
/// offset that exist.
pub open spec fn timestamp_of(s: Seq<char>) -> Option<Timestamp> {
    if matches_timestamp_layout(s) {
        confirmed(s, chrono_datetime(s, timestamp_format()))
    } else {
        None
    }
}

/// Calls `chrono::DateTime::parse_from_str` on a text of the layout
/// `YYYY-MM-DDThh:mm:ss±hhmm` and hands out the fields of the date and time
/// it returns, read in the offset that the text gives. Nothing is claimed
/// of the outcome but that it depends on the two texts alone.
#[verifier::external_body]
fn read_datetime(text: &str, format: &str) -> (r: Option<Timestamp>)
    requires
        matches_timestamp_layout(text@),
        format@ == timestamp_format(),
    ensures
        r == chrono_datetime(text@, format@),
{
    match chrono::DateTime::parse_from_str(text, format) {
        Ok(t) => Some(
            Timestamp {
                year: chrono::Datelike::year(&t),
                month: chrono::Datelike::month(&t),
                day: chrono::Datelike::day(&t),
                hour: chrono::Timelike::hour(&t),
                minute: chrono::Timelike::minute(&t),
                second: chrono::Timelike::second(&t),
                offset_seconds: t.offset().local_minus_utc(),
            },
        ),
        Err(_) => None,
    }
}

fn fits_timestamp_slot(i: usize, c: char) -> (b: bool)
    ensures
        b == timestamp_slot(i as int, c),
{
    if i == 4 || i == 7 {
        c == '-'
    } else if i == 10 {
        c == 'T'
    } else if i == 13 || i == 16 {
        c == ':'
    } else if i == 19 {
        c == '+' || c == '-'
    } else {
        is_digit_char(c)
    }
}

/// Tests the layout of a timestamp.
pub fn fits_timestamp_layout(v: &[char]) -> (b: bool)
    ensures
        b == matches_timestamp_layout(v@),
{
    if v.len() != 24 {
        return false;
    }
    let mut i: usize = 0;
    while i < 24
        invariant
            i <= 24,
            v@.len() == 24,
            forall|j: int| 0 <= j < i ==> timestamp_slot(j, #[trigger] v@[j]),
        decreases 24 - i,
    {
        if !fits_timestamp_slot(i, v[i]) {
            return false;
        }
        i += 1;
    }
    true
}

/// Tests that a timestamp bears the date that the text writes.
pub fn bears_written_date(field: &[char], t: &Timestamp) -> (b: bool)
    requires
        matches_timestamp_layout(field@),
    ensures
        b == shows_date(field@, *t),
{
    proof {
        lemma_timestamp_starts_with_date(field@);
    }
    t.date() == FilterDate::written(field)
}

impl Timestamp {
    /// The calendar date of the timestamp.
    pub fn date(&self) -> (date: FilterDate)
        ensures
            date == date_of(*self),
    {
        FilterDate { year: self.year, month: self.month, day: self.day }
    }
}

/// The timestamp that a text of the right layout denotes, given what it
/// was read as.
pub fn confirm(field: &[char], read: Option<Timestamp>) -> (r: Option<Timestamp>)
    requires
        matches_timestamp_layout(field@),
    ensures
        r == confirmed(field@, read),
{
    match read {
        Some(t) => if bears_written_date(field, &t) {
            Some(t)
        } else {
            None
        },
        None => None,
    }
}

/// Reads a timestamp from the field of a record.
pub fn parse_timestamp(field: &[char]) -> (r: Option<Timestamp>)
    ensures
        r == timestamp_of(field@),
{
    if fits_timestamp_layout(field) {
        let text = string_of(field);
        confirm(field, read_datetime(text.as_str(), "%Y-%m-%dT%H:%M:%S%z"))
    } else {
        None
    }
}

} // verus!
