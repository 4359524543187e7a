use tracker::calendar::{iso_week_start, report_dates_for_period, Date};
use tracker::clock::{
    day_start_at, elapsed_seconds, elapsed_seconds_at, elapsed_seconds_in_range,
    elapsed_seconds_in_range_at, format_utc, is_earlier, local_day_start, local_day_start_at,
    now_string, older_than_half_an_hour, parse_instant, range_between, report_range_at,
    report_range_for_period, utc_now, LocalMidnight, ReportRange, Timestamp,
};
use tracker::error::{DatabaseFault, TimeFault, TrackerError};
use tracker::names::{
    normalize_optional, normalize_required, normalize_subtask_name, subtask_name_key,
};
use tracker::number::{decimal_text, padded_text, parse_i64, signed_text};
use tracker::text::{
    is_before, join_words, same_text, split_text, split_text_at_space, split_text_once,
    strip_prefix, trim, words_of,
};

fn date(year: i32, month: u32, day: u32) -> Date {
    Date { year, month, day }
}

fn at(text: &str) -> Timestamp {
    parse_instant(text).expect("an instant")
}

#[test]
fn report_dates_use_iso_week_boundaries() {
    let today = date(2026, 1, 1);

    assert_eq!(
        report_dates_for_period(Some("this_week"), today),
        Some((date(2025, 12, 29), date(2026, 1, 5)))
    );
    assert_eq!(
        report_dates_for_period(Some("last_week"), today),
        Some((date(2025, 12, 22), date(2025, 12, 29)))
    );
}

#[test]
fn report_dates_use_calendar_month_boundaries() {
    let today = date(2026, 12, 15);

    assert_eq!(
        report_dates_for_period(Some("this_month"), today),
        Some((date(2026, 12, 1), date(2027, 1, 1)))
    );
}

#[test]
fn report_dates_cover_one_day_or_none() {
    let today = date(2028, 2, 28);
    assert_eq!(
        report_dates_for_period(Some("today"), today),
        Some((date(2028, 2, 28), date(2028, 2, 29)))
    );
    assert_eq!(
        report_dates_for_period(Some("this_month"), today),
        Some((date(2028, 2, 1), date(2028, 3, 1)))
    );
    assert_eq!(report_dates_for_period(Some("all"), today), None);
    assert_eq!(report_dates_for_period(Some("Today"), today), None);
    assert_eq!(report_dates_for_period(None, today), None);
}

#[test]
fn weeks_start_on_mondays() {
    assert_eq!(iso_week_start(date(2026, 11, 16)), date(2026, 11, 16));
    assert_eq!(iso_week_start(date(2026, 11, 22)), date(2026, 11, 16));
    assert_eq!(iso_week_start(date(2024, 3, 1)), date(2024, 2, 26));
}

#[test]
fn the_calendar_ends() {
    let last = date(262142, 12, 31);
    assert_eq!(report_dates_for_period(Some("today"), last), Some((last, last)));
    assert_eq!(report_dates_for_period(Some("this_month"), last), None);
}

#[test]
fn instants_are_written_and_read_to_the_second() {
    let t = at("2026-01-31T09:30:05Z");
    assert_eq!(t, Timestamp { secs: 1_769_851_805, nanos: 0 });
    assert_eq!(format_utc(t), "2026-01-31T09:30:05Z");
    assert_eq!(format_utc(Timestamp { secs: 0, nanos: 999_999_999 }), "1970-01-01T00:00:00Z");
    assert_eq!(format_utc(Timestamp { secs: -1, nanos: 0 }), "1969-12-31T23:59:59Z");
    assert_eq!(
        format_utc(Timestamp { secs: 1_483_228_799, nanos: 1_000_000_000 }),
        "2016-12-31T23:59:60Z"
    );
    assert_eq!(at("2026-01-31T10:30:05.25+01:00").secs, t.secs);
    assert_eq!(at("2026-01-31T10:30:05.25+01:00").nanos, 250_000_000);
    assert_eq!(format_utc(at("0000-01-01T00:00:00Z")), "0000-01-01T00:00:00Z");
    assert_eq!(format_utc(at("9999-12-31T23:59:59Z")), "9999-12-31T23:59:59Z");
}

#[test]
fn written_instants_are_ordered_like_instants() {
    let texts = [
        "0999-12-31T23:59:59Z",
        "2025-12-31T23:59:59Z",
        "2026-01-01T00:00:00Z",
        "2026-01-01T00:00:01Z",
        "2026-10-01T00:00:00Z",
    ];
    for pair in texts.windows(2) {
        assert!(is_before(pair[0], pair[1]));
        assert!(is_earlier(at(pair[0]), at(pair[1])));
        assert_eq!(format_utc(at(pair[0])), pair[0]);
    }
}

#[test]
fn texts_that_are_no_instants_are_told_apart() {
    assert_eq!(parse_instant(""), Err(TimeFault::TooShort));
    assert_eq!(parse_instant("yesterday"), Err(TimeFault::TooShort));
    assert_eq!(parse_instant("yesterday at half past nine"), Err(TimeFault::Invalid));
    assert_eq!(parse_instant("2026-13-01T00:00:00Z"), Err(TimeFault::OutOfRange));
    assert_eq!(parse_instant("2026-01-01T00:00:00Zz"), Err(TimeFault::TooLong));
}

#[test]
fn elapsed_time_is_counted_in_whole_seconds() {
    let now = at("2026-01-02T12:00:00.9Z");
    let seconds = |from: &str, to: Option<&str>| elapsed_seconds_at(from, to, now);
    assert_eq!(seconds("2026-01-02T09:00:00Z", Some("2026-01-02T09:00:59Z")).ok(), Some(59));
    assert_eq!(seconds("2026-01-02T11:59:59.95Z", None).ok(), Some(0));
    assert_eq!(seconds("2026-01-02T11:59:00Z", None).ok(), Some(60));
    assert_eq!(seconds("2026-01-02T13:00:00Z", None).ok(), Some(0));
    assert!(matches!(
        seconds("soon", None),
        Err(TrackerError::Time(TimeFault::TooShort))
    ));
    assert!(matches!(
        seconds("2026-01-02T09:00:00Z", Some("")),
        Err(TrackerError::Time(TimeFault::TooShort))
    ));
    let running = elapsed_seconds(&now_string(), None).expect("seconds");
    assert!((0..5).contains(&running));
}

#[test]
fn elapsed_time_is_clipped_to_a_range() {
    let range = ReportRange { start: at("2026-01-02T00:00:00Z"), end: at("2026-01-03T00:00:00Z") };
    let now = at("2026-01-02T12:00:00Z");
    let seconds = |from: &str, to: Option<&str>| {
        elapsed_seconds_in_range_at(from, to, &range, now).expect("seconds")
    };
    assert_eq!(seconds("2026-01-01T00:00:00Z", Some("2026-01-04T00:00:00Z")), 86400);
    assert_eq!(seconds("2026-01-01T23:00:00Z", Some("2026-01-02T01:00:00Z")), 3600);
    assert_eq!(seconds("2026-01-02T23:59:50Z", Some("2026-01-03T01:00:00Z")), 10);
    assert_eq!(seconds("2026-01-02T11:00:00Z", None), 3600);
    assert_eq!(seconds("2026-01-04T00:00:00Z", Some("2026-01-05T00:00:00Z")), 0);
    assert!(elapsed_seconds_in_range("x", None, &range).is_err());
}

#[test]
fn a_leap_second_lasts() {
    let start = "2016-12-31T23:59:59Z";
    let now = at("2017-01-01T00:00:00Z");
    assert_eq!(elapsed_seconds_at(start, Some("2016-12-31T23:59:60Z"), now).ok(), Some(1));
}

#[test]
fn half_an_hour_is_the_limit() {
    let now = at("2026-01-02T12:00:00Z");
    assert!(!older_than_half_an_hour(at("2026-01-02T11:30:00Z"), now));
    assert!(older_than_half_an_hour(at("2026-01-02T11:29:59.999999999Z"), now));
    assert!(!older_than_half_an_hour(at("2026-01-02T12:30:00Z"), now));
}

#[test]
fn days_start_at_their_first_midnight() {
    let first = at("2026-01-02T00:00:00Z");
    let second = at("2026-01-02T01:00:00Z");
    let now = at("2026-01-02T12:00:00Z");
    assert_eq!(day_start_at(LocalMidnight::Single(first), now), first);
    assert_eq!(day_start_at(LocalMidnight::Ambiguous(first, second), now), first);
    assert_eq!(day_start_at(LocalMidnight::Skipped, now), now);
    let utc = at("2026-01-02T00:00:00Z").secs;
    let local = local_day_start(date(2026, 1, 2));
    assert!((local.secs - utc).abs() < 86400);
    assert_eq!(local.nanos, 0);
}

#[test]
fn a_period_goes_from_its_first_day_to_the_day_after() {
    let now = at("2026-01-02T12:00:00Z");
    let utc = |day: Date| at(&format!("{:04}-{:02}-{:02}T00:00:00Z", day.year, day.month, day.day));
    let range = report_range_at(Some("this_week"), date(2026, 1, 2), now).expect("range");
    assert!((range.start.secs - utc(date(2025, 12, 29)).secs).abs() < 86400);
    assert!((range.end.secs - utc(date(2026, 1, 5)).secs).abs() < 86400);
    assert!(report_range_at(None, date(2026, 1, 2), now).is_none());
    let start = local_day_start_at(date(2026, 1, 2), now);
    assert!((start.secs - utc(date(2026, 1, 2)).secs).abs() < 86400);

    let first = at("2026-01-02T00:00:00Z");
    let last = at("2026-01-03T00:00:00Z");
    let range = range_between(LocalMidnight::Single(first), LocalMidnight::Single(last), now);
    assert_eq!(range, ReportRange { start: first, end: last });
    let range = range_between(LocalMidnight::Skipped, LocalMidnight::Ambiguous(last, first), now);
    assert_eq!(range, ReportRange { start: now, end: last });
}

#[test]
fn a_period_covers_the_present() {
    let now = utc_now();
    for (name, longest) in [("today", 2), ("this_week", 8), ("this_month", 32)] {
        let range = report_range_for_period(Some(name.to_owned())).expect("range").expect(name);
        assert!(!is_earlier(now, range.start), "{name} has begun");
        assert!(is_earlier(now, range.end), "{name} has not ended");
        assert!(range.end.secs - range.start.secs <= longest * 86400);
    }
    let week = report_range_for_period(Some("last_week".to_owned())).expect("range").expect("week");
    assert!(is_earlier(week.end, now));
    assert!(report_range_for_period(None).expect("range").is_none());
    assert!(report_range_for_period(Some("ever".to_owned())).expect("range").is_none());
}

#[test]
fn ascii_spaces_are_those_from_tab_to_return_and_the_blank() {
    for code in 0u8..128 {
        let c = code as char;
        let text = format!("a{c}b");
        let spaced = (9..=13).contains(&code) || code == 32;
        assert_eq!(words_of(&text).len(), if spaced { 2 } else { 1 }, "{code}");
    }
    assert_eq!(words_of("a\u{a0}b\u{3000}c\u{2003}d").len(), 4);
    assert_eq!(words_of("a\u{180e}b\u{feff}c\u{2060}d").len(), 1);
    assert_eq!(words_of("a\u{200b}b").len(), 1);
}

#[test]
fn spaces_are_the_characters_with_the_white_space_property() {
    let listed = [
        0x9, 0xa, 0xb, 0xc, 0xd, 0x20, 0x85, 0xa0, 0x1680, 0x2000, 0x2001, 0x2002, 0x2003, 0x2004,
        0x2005, 0x2006, 0x2007, 0x2008, 0x2009, 0x200a, 0x2028, 0x2029, 0x202f, 0x205f, 0x3000,
    ];
    for code in 0..=0x10_ffff_u32 {
        if let Some(c) = char::from_u32(code) {
            let blank = trim(&c.to_string()).is_empty();
            assert_eq!(blank, listed.contains(&code), "{code:x}");
        }
    }
}

#[test]
fn ascii_capitals_are_made_small() {
    for code in 33u8..128 {
        let text = (code as char).to_string();
        assert_eq!(subtask_name_key(&text), text.to_ascii_lowercase(), "{code}");
    }
    assert_eq!(subtask_name_key("ÄÖÜ STRASSE"), "äöü strasse");
    assert_eq!(subtask_name_key("İ"), "i\u{307}");
    assert_eq!(subtask_name_key("ΟΔΟΣ"), "οδος");
}

#[test]
fn names_are_tidied() {
    assert_eq!(normalize_required("  a  b ").ok().as_deref(), Some("a  b"));
    assert!(matches!(normalize_required(" \t "), Err(TrackerError::MissingTaskName)));
    assert_eq!(normalize_optional(Some("  x ".to_owned())).as_deref(), Some("x"));
    assert_eq!(normalize_optional(Some("  ".to_owned())), None);
    assert_eq!(normalize_optional(None), None);
    assert_eq!(normalize_subtask_name("  Code \t review\n"), "Code review");
    assert_eq!(normalize_subtask_name(&normalize_subtask_name(" a   b ")), "a b");
    assert_eq!(subtask_name_key("  Code   REVIEW "), "code review");
    assert_eq!(subtask_name_key("   "), "");
}

#[test]
fn texts_are_taken_apart() {
    assert_eq!(trim(" \u{a0}a b\n"), "a b");
    assert_eq!(trim(""), "");
    assert_eq!(join_words(&vec!["a".to_owned(), "b".to_owned()]), "a b");
    assert_eq!(strip_prefix("start-task:7", "start-task:"), Some("7"));
    assert_eq!(strip_prefix("start", "start-task:"), None);
    assert_eq!(split_text("a//b", '/'), vec!["a", "", "b"]);
    assert_eq!(split_text("", '/'), vec![""]);
    assert_eq!(split_text_once("a#b#c", '#'), Some(("a", "b#c")));
    assert_eq!(split_text_once("abc", '#'), None);
    assert_eq!(split_text_at_space("a\tb c"), Some(("a", "b c")));
    assert_eq!(split_text_at_space("abc"), None);
    assert!(same_text("é", "é"));
    assert!(!same_text("e", "é"));
    assert!(is_before("a", "aa"));
    assert!(is_before("Z", "a"));
    assert!(is_before("z", "é"));
    assert!(!is_before("a", "a"));
}

#[test]
fn numbers_are_written_and_read() {
    assert_eq!(decimal_text(0), "0");
    assert_eq!(decimal_text(u64::MAX), "18446744073709551615");
    assert_eq!(padded_text(7, 2), "07");
    assert_eq!(padded_text(123, 2), "123");
    for n in [0, 1, -1, 42, i64::MAX, i64::MIN] {
        assert_eq!(signed_text(n), n.to_string());
        assert_eq!(parse_i64(&signed_text(n)), Some(n));
    }
    for text in
        ["", "+", "-", "+5", "-0", "007", "9223372036854775808", "-9223372036854775809", " 1", "1a", "١"]
    {
        assert_eq!(parse_i64(text), text.parse::<i64>().ok(), "{text}");
    }
}

#[test]
fn errors_are_told_in_words() {
    let told = |error: TrackerError| error.message();
    assert_eq!(
        told(TrackerError::Database(DatabaseFault::NoRows)),
        "database error: Query returned no rows"
    );
    assert_eq!(
        told(TrackerError::Database(DatabaseFault::Full)),
        "database error: database or disk is full"
    );
    assert_eq!(
        told(TrackerError::Database(DatabaseFault::Other("locked".to_owned()))),
        "database error: locked"
    );
    assert_eq!(
        told(TrackerError::Time(TimeFault::TooShort)),
        "time parse error: premature end of input"
    );
    assert_eq!(told(TrackerError::MissingTaskName), "task name is required");
    assert_eq!(told(TrackerError::MissingSubtaskName), "subtask name is required");
    assert_eq!(
        told(TrackerError::MissingDataDir),
        "application data directory is not available"
    );
    assert_eq!(told(TrackerError::Tauri("no window".to_owned())), "tauri error: no window");
    assert_eq!(
        told(TrackerError::Http("timed out".to_owned())),
        "github request failed: timed out"
    );
    assert_eq!(told(TrackerError::Keychain("denied".to_owned())), "keychain error: denied");
    assert_eq!(told(TrackerError::Io("gone".to_owned())), "file error: gone");
    assert_eq!(
        told(TrackerError::SchemaTooNew { found: 3, supported: 2 }),
        "this database uses schema version 3, but this version of Tracker only supports version 2. Update Tracker to open it."
    );
    assert_eq!(
        told(TrackerError::MissingMigration(7)),
        "no migration is defined for schema version 7"
    );
    assert_eq!(
        told(TrackerError::MigrationIntegrity(4)),
        "the migration would have left 4 time entries pointing at missing rows"
    );
    assert_eq!(
        told(TrackerError::DatabaseUnavailable("x".to_owned())),
        "the database could not be opened: x"
    );
    assert_eq!(told(TrackerError::TotalOutOfRange), "the recorded time is out of range");
}

#[test]
fn time_faults_are_told_as_chrono_tells_them() {
    for text in ["", "yesterday", "2026-13-01T00:00:00Z", "2026-01-01T00:00:00Zz"] {
        let error = chrono::DateTime::parse_from_rfc3339(text).expect_err("no instant");
        assert_eq!(parse_instant(text).expect_err("no instant").message(), error.to_string());
    }
}

#[test]
fn database_faults_are_told_as_sqlite_tells_them() {
    assert_eq!(
        DatabaseFault::NoRows.message(),
        rusqlite::Error::QueryReturnedNoRows.to_string()
    );
}
