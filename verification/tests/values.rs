use taskhist::changes::Format;
use taskhist::text::{bytes_lt, decimal, natural, parse_digits, parse_i64};
use taskhist::value::{
    delta_time, format_value, stamp, timestamp, CLOCK_MAX, CLOCK_MIN, FAR, YEAR,
};

const NOW: i64 = 1616630000;
const DAY: i64 = 24 * 60 * 60;

#[test]
fn a_number_near_the_present_is_a_moment() {
    assert_eq!(timestamp("1616626518", NOW), Some(1616626518));
    assert_eq!(timestamp("2", NOW), None);
    assert_eq!(format_value(Format::Long, "2", NOW), "2");
    assert_eq!(format_value(Format::Short, "2", NOW), "2");
}

#[test]
fn the_window_is_a_year_each_way_and_closed() {
    assert_eq!(YEAR, 31_536_000);
    assert_eq!(timestamp(&(NOW + YEAR).to_string(), NOW), Some(NOW + YEAR));
    assert_eq!(timestamp(&(NOW - YEAR).to_string(), NOW), Some(NOW - YEAR));
    assert_eq!(timestamp(&(NOW + YEAR + 1).to_string(), NOW), None);
    assert_eq!(timestamp(&(NOW - YEAR - 1).to_string(), NOW), None);
    assert_eq!(timestamp("-5", 0), Some(-5));
    assert_eq!(timestamp("+5", 0), Some(5));
}

#[test]
fn the_window_does_not_wrap_at_the_ends_of_the_range() {
    assert_eq!(timestamp("9223372036854775807", i64::MAX), Some(i64::MAX));
    assert_eq!(timestamp("-9223372036854775808", i64::MAX), None);
    assert_eq!(timestamp("-9223372036854775808", i64::MIN), Some(i64::MIN));
    assert_eq!(timestamp("0", i64::MIN), None);
}

#[test]
fn text_that_is_no_number_is_no_moment() {
    for raw in ["", "abc", "1616626518 ", " 1616626518", "1616626518.0", "16166e5", "+", "-", "١٢٣"] {
        assert_eq!(timestamp(raw, NOW), None);
        assert_eq!(format_value(Format::Long, raw, NOW), raw);
        assert_eq!(format_value(Format::Short, raw, NOW), raw);
    }
}

#[test]
fn values_keep_their_newlines() {
    assert_eq!(format_value(Format::Long, "a\nb", NOW), "a\nb");
    assert_eq!(format_value(Format::Short, "a\nb", NOW), "a\nb");
}

#[test]
fn distances_in_words() {
    assert_eq!(delta_time(0), Some("0 seconds from now".to_string()));
    assert_eq!(delta_time(1), Some("1 seconds ago".to_string()));
    assert_eq!(delta_time(-1), Some("1 seconds from now".to_string()));
    assert_eq!(delta_time(120), Some("120 seconds ago".to_string()));
    assert_eq!(delta_time(121), Some("2 minutes ago".to_string()));
    assert_eq!(delta_time(179), Some("2 minutes ago".to_string()));
    assert_eq!(delta_time(3482), Some("58 minutes ago".to_string()));
    assert_eq!(delta_time(7200), Some("120 minutes ago".to_string()));
    assert_eq!(delta_time(7201), Some("2 hours ago".to_string()));
    assert_eq!(delta_time(-7201), Some("2 hours from now".to_string()));
    assert_eq!(delta_time(3 * DAY), Some("72 hours ago".to_string()));
    assert_eq!(delta_time(3 * DAY + 1), Some("3 days ago".to_string()));
    assert_eq!(delta_time(4 * DAY - 1), Some("3 days ago".to_string()));
    assert_eq!(delta_time(89 * DAY), Some("89 days ago".to_string()));
    assert_eq!(delta_time(-89 * DAY), Some("89 days from now".to_string()));
}

#[test]
fn no_words_beyond_ninety_days() {
    assert_eq!(FAR, 90 * DAY);
    assert_eq!(delta_time(90 * DAY), Some("90 days ago".to_string()));
    assert_eq!(delta_time(-90 * DAY), Some("90 days from now".to_string()));
    assert_eq!(delta_time(90 * DAY + 1), None);
    assert_eq!(delta_time(-90 * DAY - 1), None);
    assert_eq!(delta_time(91 * DAY), None);
    assert_eq!(delta_time(i64::MAX), None);
    assert_eq!(delta_time(i64::MIN), None);
}

#[test]
fn a_moment_is_put_together_from_clock_and_words() {
    let clock = "2021-03-24 22:55:18 +00:00".to_string();
    let words = Some("58 minutes ago".to_string());
    assert_eq!(
        stamp(Format::Long, clock.clone(), words.clone()),
        "2021-03-24 22:55:18 +00:00 (58 minutes ago)"
    );
    assert_eq!(stamp(Format::Short, clock.clone(), words), "58 minutes ago");
    assert_eq!(stamp(Format::Long, clock.clone(), None), clock);
    assert_eq!(stamp(Format::Short, clock.clone(), None), clock);
}

#[test]
fn a_near_moment_is_shown_with_its_distance() {
    assert_eq!(format_value(Format::Short, "1616626518", NOW), "58 minutes ago");
    let long = format_value(Format::Long, "1616626518", NOW);
    assert!(long.ends_with(" (58 minutes ago)"), "{}", long);
    assert!(long.starts_with("2021-03-2"), "{}", long);
    assert_ne!(long, "1616626518");
    let ahead = format_value(Format::Short, &(NOW + 5 * DAY).to_string(), NOW);
    assert_eq!(ahead, "5 days from now");
}

#[test]
fn a_far_moment_is_shown_by_its_time_alone() {
    let raw = (NOW - 91 * DAY).to_string();
    for format in [Format::Short, Format::Long] {
        let shown = format_value(format, &raw, NOW);
        assert!(!shown.contains("ago"), "{}", shown);
        assert!(!shown.contains("from now"), "{}", shown);
        assert!(!shown.contains('('), "{}", shown);
        assert!(shown.starts_with("2020-12-2"), "{}", shown);
    }
    let raw = (NOW - 89 * DAY).to_string();
    assert_eq!(format_value(Format::Short, &raw, NOW), "89 days ago");
    assert!(format_value(Format::Long, &raw, NOW).ends_with(" (89 days ago)"));
    let raw = (NOW + 89 * DAY).to_string();
    assert_eq!(format_value(Format::Short, &raw, NOW), "89 days from now");
    assert!(format_value(Format::Long, &raw, NOW).ends_with(" (89 days from now)"));
}

#[test]
fn a_moment_that_the_clock_cannot_place_is_shown_as_it_is() {
    let raw = i64::MAX.to_string();
    assert_eq!(timestamp(&raw, i64::MAX), Some(i64::MAX));
    assert_eq!(format_value(Format::Long, &raw, i64::MAX), raw);
    assert_eq!(format_value(Format::Short, &raw, i64::MAX), "0 seconds from now");
}

#[test]
fn integers_from_text() {
    assert_eq!(parse_i64(b"0"), Some(0));
    assert_eq!(parse_i64(b"0005"), Some(5));
    assert_eq!(parse_i64(b"+5"), Some(5));
    assert_eq!(parse_i64(b"-5"), Some(-5));
    assert_eq!(parse_i64(b"-0"), Some(0));
    assert_eq!(parse_i64(b"9223372036854775807"), Some(i64::MAX));
    assert_eq!(parse_i64(b"9223372036854775808"), None);
    assert_eq!(parse_i64(b"-9223372036854775808"), Some(i64::MIN));
    assert_eq!(parse_i64(b"-9223372036854775809"), None);
    assert_eq!(parse_i64(b"99999999999999999999999999999999999999999999"), None);
    assert_eq!(parse_i64(b""), None);
    assert_eq!(parse_i64(b"+"), None);
    assert_eq!(parse_i64(b"-"), None);
    assert_eq!(parse_i64(b"--1"), None);
    assert_eq!(parse_i64(b"1-"), None);
    assert_eq!(parse_i64(b"1 "), None);
    assert_eq!(parse_i64(b"0x10"), None);
}

#[test]
fn integers_from_text_agree_with_the_standard_reader() {
    for raw in ["12", "-12", "+12", "", "+", "-", "1_0", "00", "-00", "18446744073709551615", " 1"] {
        assert_eq!(parse_i64(raw.as_bytes()), raw.parse::<i64>().ok(), "{:?}", raw);
    }
}

#[test]
fn digits_up_to_a_limit() {
    assert_eq!(parse_digits(b"x123", 1, 123), Some(123));
    assert_eq!(parse_digits(b"x123", 1, 122), None);
    assert_eq!(parse_digits(b"x123", 4, 1000), None);
    assert_eq!(parse_digits(b"12a", 0, 1000), None);
    assert_eq!(parse_digits(b"18446744073709551615", 0, u64::MAX), Some(u64::MAX));
    assert_eq!(parse_digits(b"18446744073709551616", 0, u64::MAX), None);
}

#[test]
fn integers_as_text() {
    assert_eq!(natural(0), "0");
    assert_eq!(natural(10), "10");
    assert_eq!(natural(u64::MAX), "18446744073709551615");
    assert_eq!(decimal(0), "0");
    assert_eq!(decimal(-1), "-1");
    assert_eq!(decimal(1616626518), "1616626518");
    assert_eq!(decimal(i64::MAX), "9223372036854775807");
    assert_eq!(decimal(i64::MIN), "-9223372036854775808");
}

#[test]
fn lexical_order_of_bytes() {
    assert!(bytes_lt(b"a", b"b"));
    assert!(bytes_lt(b"", b"a"));
    assert!(bytes_lt(b"a", b"ab"));
    assert!(bytes_lt(b"B", b"a"));
    assert!(bytes_lt(b"ab", b"b"));
    assert!(!bytes_lt(b"a", b"a"));
    assert!(!bytes_lt(b"", b""));
    assert!(!bytes_lt(b"b", b"a"));
    assert!(!bytes_lt(b"ab", b"a"));
}

#[test]
fn moments_far_from_the_epoch() {
    for now in [8_000_000_000_000i64, -8_000_000_000_000, 253_402_300_800, -62_167_219_200] {
        let raw = now.to_string();
        assert_eq!(timestamp(&raw, now), Some(now));
        assert_eq!(format_value(Format::Short, &raw, now), "0 seconds from now");
        let long = format_value(Format::Long, &raw, now);
        assert!(long.ends_with(" (0 seconds from now)"), "{}", long);
    }
}

fn digits(text: &str) -> bool {
    !text.is_empty() && text.bytes().all(|b| b.is_ascii_digit())
}

fn pairs(text: &str, few: usize, many: usize) -> bool {
    let parts: Vec<&str> = text.split(':').collect();
    few <= parts.len() && parts.len() <= many && parts.iter().all(|p| p.len() == 2 && digits(p))
}

fn clock_text(text: &str) -> bool {
    let parts: Vec<&str> = text.split(' ').collect();
    if parts.len() != 3 {
        return false;
    }
    let fields: Vec<&str> = parts[0].rsplitn(3, '-').collect();
    let year = fields.len() == 3
        && ((fields[2].len() == 4 && digits(fields[2]))
            || (fields[2].len() >= 5
                && (fields[2].starts_with('+') || fields[2].starts_with('-'))
                && digits(&fields[2][1..])));
    let zone = parts[2];
    year && fields[0].len() == 2
        && digits(fields[0])
        && fields[1].len() == 2
        && digits(fields[1])
        && pairs(parts[1], 3, 3)
        && (zone.starts_with('+') || zone.starts_with('-'))
        && pairs(&zone[1..], 2, 3)
}

#[test]
fn the_clock_knows_the_years_that_it_counts() {
    assert_eq!(chrono::DateTime::<chrono::Utc>::MIN_UTC.timestamp(), CLOCK_MIN);
    assert_eq!(chrono::DateTime::<chrono::Utc>::MAX_UTC.timestamp(), CLOCK_MAX);
    assert!(chrono::DateTime::from_timestamp(CLOCK_MIN, 0).is_some());
    assert!(chrono::DateTime::from_timestamp(CLOCK_MAX, 0).is_some());
    assert!(chrono::DateTime::from_timestamp(CLOCK_MIN - 1, 0).is_none());
    assert!(chrono::DateTime::from_timestamp(CLOCK_MAX + 1, 0).is_none());
}

#[test]
fn a_moment_at_the_end_of_the_clock_is_still_shown_as_a_time() {
    for (ts, now) in [
        (CLOCK_MAX, CLOCK_MAX - FAR - 1),
        (CLOCK_MIN, CLOCK_MIN + FAR + 1),
        (CLOCK_MAX, CLOCK_MAX),
        (CLOCK_MIN, CLOCK_MIN),
    ] {
        let raw = ts.to_string();
        let long = format_value(Format::Long, &raw, now);
        assert_ne!(long, raw);
        let clock = long.strip_suffix(" (0 seconds from now)").unwrap_or(&long);
        assert!(clock_text(clock), "{:?}", long);
    }
    for (ts, now) in [(CLOCK_MAX + 1, CLOCK_MAX - FAR), (CLOCK_MIN - 1, CLOCK_MIN + FAR)] {
        let raw = ts.to_string();
        assert_eq!(timestamp(&raw, now), Some(ts));
        assert_eq!(format_value(Format::Long, &raw, now), raw);
        assert_eq!(format_value(Format::Short, &raw, now), raw);
    }
}

#[test]
fn what_the_clock_writes_has_one_shape() {
    for ts in [
        0,
        NOW,
        -62_000_000_000,
        -62_167_219_200,
        -62_167_219_201,
        -70_000_000_000,
        253_402_300_799,
        253_402_300_800,
        300_000_000_000,
        8_000_000_000_000,
        -8_000_000_000_000,
    ] {
        let raw = ts.to_string();
        for format in [Format::Short, Format::Long] {
            let far = format_value(format, &raw, ts + FAR + 1);
            assert!(clock_text(&far), "{:?}", far);
            assert_ne!(far, raw);
        }
        let near = format_value(Format::Long, &raw, ts + 5);
        let clock = near.strip_suffix(" (5 seconds ago)").unwrap();
        assert!(clock_text(clock), "{:?}", near);
    }
}

#[test]
fn ninety_one_days_off_there_is_the_time_alone() {
    let raw = "1608767600";
    assert_eq!(NOW - 91 * DAY, 1608767600);
    let short = format_value(Format::Short, raw, NOW);
    let long = format_value(Format::Long, raw, NOW);
    assert_eq!(short, long);
    assert_ne!(short, raw);
    assert!(clock_text(&short), "{:?}", short);
    assert!(!short.contains("ago") && !short.contains("from now") && !short.contains('('));
}

#[test]
fn eighty_nine_days_off_the_distance_stands_behind_the_time() {
    let raw = "1608940400";
    assert_eq!(NOW - 89 * DAY, 1608940400);
    assert_eq!(format_value(Format::Short, raw, NOW), "89 days ago");
    let long = format_value(Format::Long, raw, NOW);
    let clock = long.strip_suffix(" (89 days ago)").unwrap();
    assert!(clock_text(clock), "{:?}", long);
    assert!(clock.starts_with("2020-12-2"), "{:?}", long);
}

#[test]
fn the_edge_of_the_year_is_still_a_moment() {
    assert_eq!(NOW + YEAR, 1648166000);
    for format in [Format::Short, Format::Long] {
        let shown = format_value(format, "1648166000", NOW);
        assert_ne!(shown, "1648166000");
        assert!(clock_text(&shown), "{:?}", shown);
        assert_eq!(format_value(format, "1648166001", NOW), "1648166001");
        let shown = format_value(format, "1585094000", NOW);
        assert!(clock_text(&shown), "{:?}", shown);
        assert_eq!(format_value(format, "1585093999", NOW), "1585093999");
    }
}
