use camp::blank_string_means_none;
use camp::date::Date;
use camp::score::{maybe_parse_score_str, parse_score_str, ScoreError};
use camp::text::{chars_of, decimal_string, is_whitespace, parse_integer, string_of, trim};

#[test]
fn characters_round_trip() {
    let v = chars_of("héllo");
    assert_eq!(v, vec!['h', 'é', 'l', 'l', 'o']);
    assert_eq!(string_of(&v, 1, 4), "éll");
    assert_eq!(string_of(&v, 0, 0), "");
}

#[test]
fn trimming_takes_unicode_white_space() {
    assert_eq!(trim("  a b \t\n"), "a b");
    assert_eq!(trim("\u{3000}x\u{a0}"), "x");
    assert_eq!(trim(" \t "), "");
    assert_eq!(trim(""), "");
    assert!(is_whitespace('\u{2003}'));
    assert!(!is_whitespace('a'));
    // The library's white space is that of the standard library.
    let mut c = 0u32;
    while c < 0x3100 {
        if let Some(ch) = char::from_u32(c) {
            assert_eq!(is_whitespace(ch), ch.is_whitespace(), "U+{:04X}", c);
        }
        c += 1;
    }
}

#[test]
fn blank_means_no_text() {
    assert_eq!(blank_string_means_none(None), None);
    assert_eq!(blank_string_means_none(Some("  ".to_string())), None);
    assert_eq!(blank_string_means_none(Some("".to_string())), None);
    assert_eq!(blank_string_means_none(Some(" x ".to_string())), Some(" x ".to_string()));
}

#[test]
fn integers_are_read_as_the_standard_library_reads_them() {
    let cases = ["0", "7", "+7", "-7", "007", "32767", "32768", "-32768", "-32769", "", "+", "-",
        " 5", "5 ", "1e3", "٣", "99999999999999999999999", "-0"];
    for s in cases {
        assert_eq!(
            parse_integer(s, true, i16::MIN as i64, i16::MAX as i64),
            s.parse::<i16>().ok().map(|n| n as i64),
            "{:?} as i16", s
        );
        assert_eq!(
            parse_integer(s, false, 0, u8::MAX as i64),
            s.parse::<u8>().ok().map(|n| n as i64),
            "{:?} as u8", s
        );
        assert_eq!(
            parse_integer(s, true, i64::MIN, i64::MAX),
            s.parse::<i64>().ok(),
            "{:?} as i64", s
        );
    }
    assert_eq!(parse_integer("9223372036854775807", true, i64::MIN, i64::MAX), Some(i64::MAX));
    assert_eq!(parse_integer("-9223372036854775808", true, i64::MIN, i64::MAX), Some(i64::MIN));
    assert_eq!(parse_integer("9223372036854775808", true, i64::MIN, i64::MAX), None);
}

#[test]
fn numbers_are_written_in_decimal() {
    assert_eq!(decimal_string(0), "0");
    assert_eq!(decimal_string(9), "9");
    assert_eq!(decimal_string(10), "10");
    assert_eq!(decimal_string(1234567890), "1234567890");
    assert_eq!(decimal_string(u64::MAX), u64::MAX.to_string());
}

#[test]
fn scores_are_percentages_or_fractions() {
    assert_eq!(parse_score_str("87"), Ok(Some(870_000)));
    assert_eq!(parse_score_str("87%"), Ok(Some(870_000)));
    assert_eq!(parse_score_str("87.5"), Ok(Some(875_000)));
    assert_eq!(parse_score_str("0.875"), Ok(Some(875_000)));
    assert_eq!(parse_score_str("0.87"), Ok(Some(870_000)));
    assert_eq!(parse_score_str(" 100% "), Ok(Some(1_000_000)));
    assert_eq!(parse_score_str("100"), Ok(Some(1_000_000)));
    assert_eq!(parse_score_str("0"), Ok(Some(0)));
    assert_eq!(parse_score_str("1"), Ok(Some(1_000_000)));
    assert_eq!(parse_score_str("1%"), Ok(Some(10_000)));
    assert_eq!(parse_score_str(".5"), Ok(Some(500_000)));
    assert_eq!(parse_score_str("5."), Ok(Some(50_000)));
    assert_eq!(parse_score_str("87.54321%"), Ok(Some(875_432)));
    assert_eq!(parse_score_str("0.1234567899"), Ok(Some(123_456)));
}

#[test]
fn blank_scores_are_no_scores() {
    assert_eq!(parse_score_str(""), Ok(None));
    assert_eq!(parse_score_str("   "), Ok(None));
    assert_eq!(maybe_parse_score_str(None), Ok(None));
    assert_eq!(maybe_parse_score_str(Some(" \t")), Ok(None));
    assert_eq!(maybe_parse_score_str(Some("90")), Ok(Some(900_000)));
}

#[test]
fn bad_scores_are_refused() {
    assert_eq!(parse_score_str("abc"), Err(ScoreError::Malformed));
    assert_eq!(parse_score_str("%"), Err(ScoreError::Malformed));
    assert_eq!(parse_score_str("."), Err(ScoreError::Malformed));
    assert_eq!(parse_score_str("-5"), Err(ScoreError::Malformed));
    assert_eq!(parse_score_str("8 7"), Err(ScoreError::Malformed));
    assert_eq!(parse_score_str("1.2.3"), Err(ScoreError::Malformed));
    assert_eq!(parse_score_str("87%%"), Err(ScoreError::Malformed));
    assert_eq!(parse_score_str("101"), Err(ScoreError::OutOfRange));
    assert_eq!(parse_score_str("100.5%"), Err(ScoreError::OutOfRange));
    assert_eq!(parse_score_str("99999999999999999999999999"), Err(ScoreError::OutOfRange));
}

#[test]
fn calendar_dates_are_checked() {
    assert!(Date::from_calendar_date(2024, 2, 29).is_some());
    assert!(Date::from_calendar_date(2023, 2, 29).is_none());
    assert!(Date::from_calendar_date(2024, 13, 1).is_none());
    assert!(Date::from_calendar_date(2024, 0, 1).is_none());
    assert!(Date::from_calendar_date(2024, 1, 0).is_none());
    assert!(Date::from_calendar_date(2024, 4, 31).is_none());
    assert!(Date::from_calendar_date(1900, 2, 29).is_none());
    assert!(Date::from_calendar_date(2000, 2, 29).is_some());
    assert!(Date::from_calendar_date(10000, 1, 1).is_none());
    assert!(Date::from_calendar_date(-9999, 1, 1).is_some());
    assert!(Date::from_calendar_date(-10000, 1, 1).is_none());
    let d = Date::from_calendar_date(2024, 1, 15).unwrap();
    assert_eq!((d.year(), d.month(), d.day()), (2024, 1, 15));
}

#[test]
fn every_day_of_some_years_is_checked_alike() {
    // What the library says exists is what its contract says exists.
    for year in [1899, 1900, 1999, 2000, 2023, 2024, 2100] {
        for month in 0u8..14 {
            for day in 0u8..33 {
                let leap = year % 4 == 0 && (year % 100 != 0 || year % 400 == 0);
                let days = match month {
                    2 => if leap { 29 } else { 28 },
                    4 | 6 | 9 | 11 => 30,
                    _ => 31,
                };
                let expected = (1..=12).contains(&month) && day >= 1 && day <= days;
                assert_eq!(
                    Date::from_calendar_date(year, month, day).is_some(),
                    expected,
                    "{}-{}-{}", year, month, day
                );
            }
        }
    }
}

#[test]
fn dates_are_ordered_by_day() {
    let a = Date::from_calendar_date(2024, 1, 31).unwrap();
    let b = Date::from_calendar_date(2024, 2, 1).unwrap();
    let c = Date::from_calendar_date(2023, 12, 31).unwrap();
    assert!(a.is_earlier(&b));
    assert!(!b.is_earlier(&a));
    assert!(c.is_earlier(&a));
    assert!(!a.is_earlier(&a));
}

#[test]
fn texts_are_ordered_as_the_standard_library_orders_them() {
    let texts = ["", "a", "A", "ab", "abc", "b", "é", "z", "zz", "日本", "a b", "-", "~"];
    for a in texts.iter() {
        for b in texts.iter() {
            assert_eq!(camp::text::is_text_before(a, b), a < b, "{:?} before {:?}", a, b);
        }
    }
}

#[test]
fn dates_are_written_in_short() {
    let names = ["Jan", "Feb", "Mar", "Apr", "May", "Jun", "Jul", "Aug", "Sep", "Oct", "Nov", "Dec"];
    for (n, name) in names.iter().enumerate() {
        let first = Date::from_calendar_date(2023, n as u8 + 1, 1).unwrap();
        assert_eq!(first.to_short_string(), format!("{} 01", name));
        let later = Date::from_calendar_date(-44, n as u8 + 1, 28).unwrap();
        assert_eq!(later.to_short_string(), format!("{} 28", name));
    }
}
