use cookie_log::timestamp::{bears_written_date, confirm, fits_timestamp_layout, parse_timestamp};
use cookie_log::{FilterDate, Timestamp};

fn chars(s: &str) -> Vec<char> {
    s.chars().collect()
}

fn read(s: &str) -> Option<Timestamp> {
    parse_timestamp(&chars(s))
}

#[test]
fn timestamp_gives_the_fields_as_written() {
    assert_eq!(
        read("2018-12-09T14:19:07+0000"),
        Some(Timestamp { year: 2018, month: 12, day: 9, hour: 14, minute: 19, second: 7, offset_seconds: 0 })
    );
    assert_eq!(
        read("1999-01-31T00:00:59-0230"),
        Some(Timestamp { year: 1999, month: 1, day: 31, hour: 0, minute: 0, second: 59, offset_seconds: -9000 })
    );
    assert_eq!(
        read("2020-02-29T23:59:00+1400"),
        Some(Timestamp { year: 2020, month: 2, day: 29, hour: 23, minute: 59, second: 0, offset_seconds: 50400 })
    );
}

#[test]
fn layout_is_exact() {
    assert!(fits_timestamp_layout(&chars("2018-12-09T14:19:00+0000")));
    assert!(fits_timestamp_layout(&chars("0000-00-00T99:99:99-9999")));
    assert!(!fits_timestamp_layout(&chars("")));
    assert!(!fits_timestamp_layout(&chars("2018-12-09T14:19:00+00:00")));
    assert!(!fits_timestamp_layout(&chars("2018-12-09T14:19:00+000")));
    assert!(!fits_timestamp_layout(&chars("2018-12-09T14:19:00+00000")));
    assert!(!fits_timestamp_layout(&chars("2018-12-09 14:19:00+0000")));
    assert!(!fits_timestamp_layout(&chars("2018-12-09t14:19:00+0000")));
    assert!(!fits_timestamp_layout(&chars("2018/12/09T14:19:00+0000")));
    assert!(!fits_timestamp_layout(&chars("2018-12-09T14.19.00+0000")));
    assert!(!fits_timestamp_layout(&chars("2018-12-09T14:19:00 0000")));
    assert!(!fits_timestamp_layout(&chars("2018-12-09T14:19:00Z0000")));
    assert!(!fits_timestamp_layout(&chars("2018-12-0xT14:19:00+0000")));
    assert!(!fits_timestamp_layout(&chars("\u{662}018-12-09T14:19:00+0000")));
}

#[test]
fn what_is_not_laid_out_as_a_timestamp_is_refused() {
    assert_eq!(read(""), None);
    assert_eq!(read("2018-12-09"), None);
    assert_eq!(read("2018-12-09T14:19:00"), None);
    assert_eq!(read("2018-12-09T14:19:00Z"), None);
    assert_eq!(read("2018-12-09T14:19:00+00:00"), None);
    assert_eq!(read("2018-12-09T14:19:00.5+0000"), None);
    assert_eq!(read("2018-12-09T14:19:00.000+0000"), None);
    assert_eq!(read(" 2018-12-09T14:19:00+0000"), None);
    assert_eq!(read("2018-12-09T14:19:00+0000 "), None);
    assert_eq!(read("2018-12-09T14:19:00 +0000"), None);
    assert_eq!(read("2018-1-09T14:19:00+0000"), None);
    assert_eq!(read("2018-12-9T14:19:00+0000"), None);
    assert_eq!(read("18-12-09T14:19:00+0000"), None);
    assert_eq!(read("+2018-12-09T14:19:00+0000"), None);
    assert_eq!(read("12018-12-09T14:19:00+0000"), None);
}

#[test]
fn dates_and_times_that_do_not_exist_are_refused() {
    assert_eq!(read("2018-02-29T14:19:00+0000"), None);
    assert_eq!(read("2018-02-30T14:19:00+0000"), None);
    assert_eq!(read("2018-04-31T14:19:00+0000"), None);
    assert_eq!(read("2018-13-01T14:19:00+0000"), None);
    assert_eq!(read("2018-00-01T14:19:00+0000"), None);
    assert_eq!(read("2018-01-00T14:19:00+0000"), None);
    assert_eq!(read("2018-01-32T14:19:00+0000"), None);
    assert_eq!(read("2018-12-09T24:00:00+0000"), None);
    assert_eq!(read("2018-12-09T14:60:00+0000"), None);
    assert_eq!(read("2018-12-09T14:19:61+0000"), None);
    assert_eq!(read("2018-12-09T14:19:00+0060"), None);
}

#[test]
fn a_reading_counts_where_it_bears_the_written_date() {
    let field = chars("2018-12-09T14:19:07+0000");
    let t = Timestamp { year: 2018, month: 12, day: 9, hour: 14, minute: 19, second: 7, offset_seconds: 0 };
    assert!(bears_written_date(&field, &t));
    assert_eq!(confirm(&field, Some(t)), Some(t));
    assert_eq!(confirm(&field, None), None);
    let other_hour = Timestamp { hour: 3, second: 59, offset_seconds: 3600, ..t };
    assert_eq!(confirm(&field, Some(other_hour)), Some(other_hour));
    assert_eq!(confirm(&field, Some(Timestamp { year: 2017, ..t })), None);
    assert_eq!(confirm(&field, Some(Timestamp { year: -2018, ..t })), None);
    assert_eq!(confirm(&field, Some(Timestamp { month: 11, ..t })), None);
    assert_eq!(confirm(&field, Some(Timestamp { day: 10, ..t })), None);
}

#[test]
fn a_leap_second_is_read_within_its_day() {
    let t = read("2016-12-31T23:59:60+0000").unwrap();
    assert_eq!((t.year, t.month, t.day), (2016, 12, 31));
    assert_eq!((t.hour, t.minute), (23, 59));
}

#[test]
fn year_zero_is_a_year() {
    let t = read("0000-01-01T00:00:00+2359").unwrap();
    assert_eq!((t.year, t.month, t.day), (0, 1, 1));
    assert_eq!(t.offset_seconds, 86340);
}

#[test]
fn date_is_year_month_and_day() {
    let t = Timestamp { year: 2018, month: 12, day: 9, hour: 14, minute: 19, second: 7, offset_seconds: -3600 };
    assert_eq!(t.date(), FilterDate::new(2018, 12, 9));
}
