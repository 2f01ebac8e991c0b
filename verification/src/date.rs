//! The calendar date by which entries are picked.

use crate::digits::{is_digit, is_digit_char, number, read_number};
use crate::text::chars_of;
use vstd::prelude::*;

verus! {

/// A calendar date, by which entries are picked.
#[derive(Clone, Copy, Debug, PartialEq, Eq, Structural)]
pub struct FilterDate {
    pub year: i32,
    pub month: u32,
    pub day: u32,
}

/// The text that was given for a date is none.
#[derive(Clone, Copy, Debug, PartialEq, Eq, Structural)]
pub struct MalformedFilterDate;

/// The format by which a date is read.
pub open spec fn date_format() -> Seq<char> {
    "%Y-%m-%d"@
}

/// Whether `c` may stand at position `i` of a date, which is laid out as
/// `YYYY-MM-DD`.
pub open spec fn date_slot(i: int, c: char) -> bool {
    if i == 4 || i == 7 {
        c == '-'
    } else {
        is_digit(c)
    }
}

/// Whether `s` begins with ten characters laid out as `YYYY-MM-DD`.
pub open spec fn starts_with_date(s: Seq<char>) -> bool {
    &&& s.len() >= 10
    &&& forall|i: int| 0 <= i < 10 ==> date_slot(i, #[trigger] s[i])
}

/// Whether `s` is laid out as `YYYY-MM-DD`, with nothing before or after.
pub open spec fn matches_date_layout(s: Seq<char>) -> bool {
    s.len() == 10 && starts_with_date(s)
}

/// What `chrono::NaiveDate::parse_from_str` makes of `text` under `format`:
/// the year, month and day of the date it returns, or `None` where it
/// returns an error.
pub uninterp spec fn chrono_date(text: Seq<char>, format: Seq<char>) -> Option<FilterDate>;

/// Whether `date` is the year, month and day that `s` writes in its first
/// ten characters.
pub open spec fn shows(s: Seq<char>, date: FilterDate) -> bool {
    &&& date.year == number(s.subrange(0, 4))
    &&& date.month == number(s.subrange(5, 7))
    &&& date.day == number(s.subrange(8, 10))
}

/// The date that a text denotes: the text must be laid out as `YYYY-MM-DD`
/// and name a day that exists.
pub open spec fn filter_date_of(s: Seq<char>) -> Result<FilterDate, MalformedFilterDate> {
    if matches_date_layout(s) {
        date_read_as(s, chrono_date(s, date_format()))
    } else {
        Err(MalformedFilterDate)
    }
}

/// The date that a text of the right layout denotes, given what it was
/// read as: the reading counts where it is the date that the text writes.
pub open spec fn date_read_as(s: Seq<char>, read: Option<FilterDate>) -> Result<
    FilterDate,
    MalformedFilterDate,
> {
    match read {
        Some(date) => if shows(s, date) {
            Ok(date)
        } else {
            Err(MalformedFilterDate)
        },
        None => Err(MalformedFilterDate),
    }
}

/// Calls `chrono::NaiveDate::parse_from_str` on a text of the layout
/// `YYYY-MM-DD` and hands out the year, month and day of the date it
/// returns. Nothing is claimed of the outcome but that it depends on the
/// two texts alone.
#[verifier::external_body]
fn read_date(text: &str, format: &str) -> (r: Option<FilterDate>)
    requires
        matches_date_layout(text@),
        format@ == date_format(),
    ensures
        r == chrono_date(text@, format@),
{
    match chrono::NaiveDate::parse_from_str(text, format) {
        Ok(d) => Some(
            FilterDate {
                year: chrono::Datelike::year(&d),
                month: chrono::Datelike::month(&d),
                day: chrono::Datelike::day(&d),
            },
        ),
        Err(_) => None,
    }
}

/// Tests the layout of a date.
pub fn fits_date_layout(v: &[char]) -> (b: bool)
    ensures
        b == matches_date_layout(v@),
{
    if v.len() != 10 {
        return false;
    }
    let mut i: usize = 0;
    while i < 10
        invariant
            i <= 10,
            v@.len() == 10,
            forall|j: int| 0 <= j < i ==> date_slot(j, #[trigger] v@[j]),
        decreases 10 - i,
    {
        let fits = if i == 4 || i == 7 {
            v[i] == '-'
        } else {
            is_digit_char(v[i])
        };
        if !fits {
            return false;
        }
        i += 1;
    }
    true
}

impl FilterDate {
    /// The date of the given year, month and day.
    pub fn new(year: i32, month: u32, day: u32) -> (date: FilterDate)
        ensures
            date == (FilterDate { year, month, day }),
    {
        FilterDate { year, month, day }
    }

    /// Reads a date laid out as `YYYY-MM-DD`.
    pub fn parse(text: &str) -> (r: Result<FilterDate, MalformedFilterDate>)
        ensures
            r == filter_date_of(text@),
    {
        let v = chars_of(text);
        if fits_date_layout(v.as_slice()) {
            FilterDate::read_as(v.as_slice(), read_date(text, "%Y-%m-%d"))
        } else {
            Err(MalformedFilterDate)
        }
    }

    /// The date that a text of the right layout denotes, given what it was
    /// read as.
    pub fn read_as(text: &[char], read: Option<FilterDate>) -> (r: Result<
        FilterDate,
        MalformedFilterDate,
    >)
        requires
            matches_date_layout(text@),
        ensures
            r == date_read_as(text@, read),
    {
        match read {
            Some(date) => {
                let written = FilterDate::written(text);
                if date.year == written.year && date.month == written.month && date.day
                    == written.day {
                    Ok(date)
                } else {
                    Err(MalformedFilterDate)
                }
            },
            None => Err(MalformedFilterDate),
        }
    }

    /// The year, month and day that a text writes in its first ten
    /// characters.
    pub fn written(text: &[char]) -> (date: FilterDate)
        requires
            starts_with_date(text@),
        ensures
            shows(text@, date),
    {
        proof {
            assert forall|i: int| 0 <= i < 4 implies is_digit(
                #[trigger] text@.subrange(0, 4)[i],
            ) by {
                assert(date_slot(i, text@[i]));
            }
            assert forall|i: int| 0 <= i < 2 implies is_digit(
                #[trigger] text@.subrange(5, 7)[i],
            ) by {
                assert(date_slot(i + 5, text@[i + 5]));
            }
            assert forall|i: int| 0 <= i < 2 implies is_digit(
                #[trigger] text@.subrange(8, 10)[i],
            ) by {
                assert(date_slot(i + 8, text@[i + 8]));
            }
        }
        let year = read_number(text, 0, 4);
        let month = read_number(text, 5, 7);
        let day = read_number(text, 8, 10);
        FilterDate { year: year as i32, month, day }
    }
}

} // verus!
