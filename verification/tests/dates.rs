use catcount::moment::{
    backwards_message, choose_reading, date_range, parse_datetime, range_between,
    unreadable_message, DateError, Moment, RangeError,
};

fn at(secs: i64, nanos: u32) -> Moment {
    Moment { secs, nanos }
}

/// 2026-08-01 00:00:00.
const AUGUST: i64 = 1_785_542_400;

#[test]
fn a_bare_date_starts_and_ends_with_its_day() {
    assert_eq!(parse_datetime("2026-08-01", false), Ok(at(AUGUST, 0)));
    assert_eq!(parse_datetime("2026-08-01", true), Ok(at(AUGUST + 86_399, 999_000_000)));
    assert_eq!(parse_datetime("1969-12-31", false), Ok(at(-86_400, 0)));
}

#[test]
fn a_time_of_day_is_taken_as_it_is() {
    let noon = at(AUGUST + 12 * 3600 + 34 * 60, 0);
    for text in [
        "2026-08-01 12:34:00",
        "2026-08-01T12:34:00",
        "2026-08-01 12:34",
        "2026-08-01T12:34",
        "2026-08-01T12:34:00Z",
        "2026-08-01T14:34:00+02:00",
        " \t2026-08-01 12:34\n",
    ] {
        assert_eq!(parse_datetime(text, false), Ok(noon));
        assert_eq!(parse_datetime(text, true), Ok(noon));
    }
}

#[test]
fn fractions_and_leap_seconds_are_read() {
    assert_eq!(parse_datetime("2026-08-01T00:00:00.25Z", false), Ok(at(AUGUST, 250_000_000)));
    assert_eq!(
        parse_datetime("2016-12-31T23:59:60Z", false),
        Ok(at(1_483_228_799, 1_000_000_000))
    );
}

#[test]
fn other_texts_are_refused() {
    let e = parse_datetime("  soon\" ", false).unwrap_err();
    assert_eq!(e, DateError { input: "soon\"".to_string() });
    assert_eq!(
        e.message(),
        "could not parse date \"soon\\\"\"; expected YYYY-MM-DD, 'YYYY-MM-DD HH:MM[:SS]' or RFC 3339"
    );
    for text in ["", "2026-13-01", "2026-02-30", "2026-08-01 25:00", "01.08.2026"] {
        assert!(parse_datetime(text, true).is_err());
    }
}

#[test]
fn readings_have_an_order() {
    let zoned = Some(at(1, 0));
    let civil = vec![None, Some(at(2, 0)), Some(at(3, 0))];
    assert_eq!(choose_reading(zoned, &civil, Some(4), true), Some(at(1, 0)));
    assert_eq!(choose_reading(None, &civil, Some(4), true), Some(at(2, 0)));
    assert_eq!(choose_reading(None, &vec![None], Some(1), true), Some(at(172_799, 999_000_000)));
    assert_eq!(choose_reading(None, &vec![None], Some(1), false), Some(at(86_400, 0)));
    assert_eq!(choose_reading(None, &vec![], None, false), None);
}

#[test]
fn january_is_covered_whole() {
    let (start, end) = date_range("2026-01-01", "2026-01-31").unwrap();
    assert_eq!(start.millis(), 1_767_225_600_000);
    assert_eq!(end.millis(), start.millis() + 31 * 86_400_000 - 1);
}

#[test]
fn milliseconds_are_rounded_down() {
    assert_eq!(at(-1, 999_999_999).millis(), -1);
    assert_eq!(at(2, 1_999_999).millis(), 2001);
}

#[test]
fn a_range_of_one_moment_is_a_range() {
    let text = "2026-01-01T10:00:00Z";
    let (start, end) = date_range(text, text).unwrap();
    assert_eq!(start, end);
}

#[test]
fn an_end_before_the_start_is_refused() {
    let e = date_range("2026-08-02", "2026-08-01").unwrap_err();
    assert_eq!(
        e.message(),
        "--end (2026-08-01 23:59:59.999 UTC) is before --start (2026-08-02 00:00:00 UTC)"
    );
    assert_eq!(
        range_between(at(5, 1), at(5, 0)),
        Err(RangeError::Backwards { start: at(5, 1), end: at(5, 0) })
    );
    assert_eq!(range_between(at(5, 1), at(5, 1)), Ok((at(5, 1), at(5, 1))));
}

#[test]
fn the_start_is_reported_first() {
    let e = date_range("x", "y").unwrap_err();
    assert_eq!(e, RangeError::Unreadable(DateError { input: "x".to_string() }));
    let e = date_range("2026-01-01", "y").unwrap_err();
    assert_eq!(
        e.message(),
        "could not parse date \"y\"; expected YYYY-MM-DD, 'YYYY-MM-DD HH:MM[:SS]' or RFC 3339"
    );
}

#[test]
fn moments_are_written_in_two_forms() {
    let m = at(AUGUST + 86_399, 999_000_000);
    assert_eq!(m.to_heading(), "2026-08-01 23:59:59");
    assert_eq!(m.to_zoned(), "2026-08-01T23:59:59.999+00:00");
}

#[test]
fn the_calendar_has_ends() {
    let first = parse_datetime("-262143-01-01", false).unwrap();
    assert_eq!(first, at(-96_465_292 * 86_400, 0));
    let last = parse_datetime("+262142-12-31", true).unwrap();
    assert_eq!(last, at(95_026_236 * 86_400 + 86_399, 999_000_000));
    assert!(parse_datetime("-262144-12-31", false).is_err());
    assert!(parse_datetime("+262143-01-01", true).is_err());
    assert_eq!(first.to_zoned(), "-262143-01-01T00:00:00+00:00");
    assert_eq!(last.to_heading(), "+262142-12-31 23:59:59");
    assert_eq!(last.millis(), (95_026_236 + 1) * 86_400_000 - 1);
    let leap = parse_datetime("2016-12-31 23:59:60", false).unwrap();
    assert_eq!(leap, at(1_483_228_799, 1_000_000_000));
    assert_eq!(leap.to_heading(), "2016-12-31 23:59:60");
}

#[test]
fn whole_days_meet_without_a_gap() {
    let (_, end) = date_range("2026-01-01", "2026-01-31").unwrap();
    let (start, _) = date_range("2026-02-01", "2026-02-28").unwrap();
    assert_eq!(end.millis() + 1, start.millis());
}

#[test]
fn messages_about_given_texts() {
    assert_eq!(
        unreadable_message("<x>"),
        "could not parse date <x>; expected YYYY-MM-DD, 'YYYY-MM-DD HH:MM[:SS]' or RFC 3339"
    );
    assert_eq!(backwards_message("noon", "dawn"), "--end (dawn) is before --start (noon)");
}
