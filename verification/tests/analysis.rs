use cookie_log::{get_max_freq_date, parse_logs, FilterDate, LogEntry, Timestamp};

fn sample_log() -> &'static str {
    "cookie,timestamp\n\
     AtY0laUfhglK3lC7,2018-12-09T14:19:00+0000\n\
     SAZuXPGUrfbcn5UA,2018-12-09T10:13:00+0000\n\
     5UAVanZf6UtGyKVS,2018-12-09T07:25:00+0000\n\
     AtY0laUfhglK3lC7,2018-12-09T06:19:00+0000\n\
     4sMM2LxV07bPJzwf,2018-12-09T02:01:00+0000\n\
     SAZuXPGUrfbcn5UA,2018-12-08T22:03:00+0000\n\
     4sMM2LxV07bPJzwf,2018-12-08T21:30:00+0000\n\
     fbcn5UAVanZf6UtG,2018-12-08T09:30:00+0000\n"
}

fn entry(cookie: &str, year: i32, month: u32, day: u32) -> LogEntry {
    LogEntry {
        cookie: String::from(cookie),
        timestamp: Timestamp { year, month, day, hour: 12, minute: 0, second: 0, offset_seconds: 0 },
    }
}

fn sorted(mut cookies: Vec<String>) -> Vec<String> {
    cookies.sort();
    cookies
}

#[test]
fn no_max_frequencies() {
    let empty_file_entries = parse_logs("").unwrap();
    let max_freq = get_max_freq_date(&empty_file_entries, &FilterDate::new(2018, 2, 14));

    assert_eq!(max_freq.len(), 0);
}

#[test]
fn provided_sample_max_frequencies() {
    let entries = parse_logs(sample_log()).unwrap();

    let max_frequencies_single = get_max_freq_date(&entries, &FilterDate::new(2018, 12, 9));

    let max_frequencies_multiple = get_max_freq_date(&entries, &FilterDate::new(2018, 12, 8));

    assert_eq!(max_frequencies_single.len(), 1);
    assert_eq!(max_frequencies_multiple.len(), 3);
}

#[test]
fn sample_names_the_leaders() {
    let entries = parse_logs(sample_log()).unwrap();
    assert_eq!(
        get_max_freq_date(&entries, &FilterDate::new(2018, 12, 9)),
        vec![String::from("AtY0laUfhglK3lC7")]
    );
    assert_eq!(
        sorted(get_max_freq_date(&entries, &FilterDate::new(2018, 12, 8))),
        vec![
            String::from("4sMM2LxV07bPJzwf"),
            String::from("SAZuXPGUrfbcn5UA"),
            String::from("fbcn5UAVanZf6UtG"),
        ]
    );
}

#[test]
fn header_alone_has_no_leader_on_any_date() {
    let entries = parse_logs("cookie,timestamp\n").unwrap();
    assert!(get_max_freq_date(&entries, &FilterDate::new(2018, 12, 9)).is_empty());
    assert!(get_max_freq_date(&entries, &FilterDate::new(1, 1, 1)).is_empty());
}

#[test]
fn date_without_entries_has_no_leader() {
    let entries = parse_logs(sample_log()).unwrap();
    assert!(get_max_freq_date(&entries, &FilterDate::new(2018, 12, 7)).is_empty());
    assert!(get_max_freq_date(&entries, &FilterDate::new(2019, 12, 9)).is_empty());
    assert!(get_max_freq_date(&entries, &FilterDate::new(2018, 11, 9)).is_empty());
    assert!(get_max_freq_date(&entries, &FilterDate::new(2018, 13, 40)).is_empty());
}

#[test]
fn all_tied_cookies_and_only_they_are_reported() {
    let entries = vec![
        entry("a", 2020, 1, 1),
        entry("b", 2020, 1, 1),
        entry("c", 2020, 1, 1),
        entry("a", 2020, 1, 1),
        entry("b", 2020, 1, 1),
        entry("c", 2020, 1, 2),
        entry("c", 2020, 1, 2),
        entry("c", 2020, 1, 2),
    ];
    assert_eq!(
        sorted(get_max_freq_date(&entries, &FilterDate::new(2020, 1, 1))),
        vec![String::from("a"), String::from("b")]
    );
    assert_eq!(get_max_freq_date(&entries, &FilterDate::new(2020, 1, 2)), vec![String::from("c")]);
}

#[test]
fn each_leader_is_reported_once() {
    let entries = vec![
        entry("a", 2020, 1, 1),
        entry("a", 2020, 1, 1),
        entry("a", 2020, 1, 1),
        entry("b", 2020, 1, 1),
    ];
    assert_eq!(get_max_freq_date(&entries, &FilterDate::new(2020, 1, 1)), vec![String::from("a")]);
}

#[test]
fn a_late_leader_overtakes() {
    let entries = vec![
        entry("a", 2020, 1, 1),
        entry("b", 2020, 1, 1),
        entry("a", 2020, 1, 1),
        entry("b", 2020, 1, 1),
        entry("b", 2020, 1, 1),
    ];
    assert_eq!(get_max_freq_date(&entries, &FilterDate::new(2020, 1, 1)), vec![String::from("b")]);
}

#[test]
fn cookies_are_told_apart_by_case() {
    let entries = vec![entry("abc", 2020, 1, 1), entry("ABC", 2020, 1, 1), entry("abc", 2020, 1, 1)];
    assert_eq!(get_max_freq_date(&entries, &FilterDate::new(2020, 1, 1)), vec![String::from("abc")]);
}

#[test]
fn the_date_is_that_of_the_entry_s_own_offset() {
    let entries =
        parse_logs("h\na,2018-12-09T23:30:00-0800\nb,2018-12-10T00:30:00+0900\nb,2018-12-10T01:30:00+0900\n")
            .unwrap();
    assert_eq!(get_max_freq_date(&entries, &FilterDate::new(2018, 12, 9)), vec![String::from("a")]);
    assert_eq!(get_max_freq_date(&entries, &FilterDate::new(2018, 12, 10)), vec![String::from("b")]);
}

#[test]
fn time_of_day_plays_no_part() {
    let mut early = entry("a", 2020, 1, 1);
    early.timestamp.hour = 0;
    let mut late = entry("a", 2020, 1, 1);
    late.timestamp.hour = 23;
    late.timestamp.minute = 59;
    late.timestamp.second = 59;
    late.timestamp.offset_seconds = -3600;
    let entries = vec![early, entry("b", 2020, 1, 1), late];
    assert_eq!(get_max_freq_date(&entries, &FilterDate::new(2020, 1, 1)), vec![String::from("a")]);
}

#[test]
fn leaders_come_in_the_order_of_their_first_entry() {
    let entries = vec![entry("z", 2020, 1, 1), entry("m", 2020, 1, 1), entry("a", 2020, 1, 1)];
    assert_eq!(
        get_max_freq_date(&entries, &FilterDate::new(2020, 1, 1)),
        vec![String::from("z"), String::from("m"), String::from("a")]
    );
}

#[test]
fn no_entries_no_leader() {
    let entries: Vec<LogEntry> = Vec::new();
    assert!(get_max_freq_date(&entries, &FilterDate::new(2020, 1, 1)).is_empty());
}
