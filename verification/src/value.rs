//! Raw values as they are shown: a number that lies near the present is
//! taken for a moment in time, anything else is text.

use crate::changes::Format;
use crate::text::{i64_of_text, natural, natural_text, parse_i64, signed_decimal};
use chrono::TimeZone;
use vstd::prelude::*;
use vstd::string::*;
use vstd::utf8::*;

verus! {

/// Seconds in a year of 365 days. A number counts as a moment in time where
/// it lies no further than this from the present.
pub const YEAR: i64 = 365 * 24 * 60 * 60;

/// Seconds in 90 days. A moment further than this from the present is shown
/// without its distance.
pub const FAR: i64 = 90 * 24 * 60 * 60;

/// The first moment of which the clock knows the local time, in seconds
/// since the epoch: the start of the year -262143.
pub const CLOCK_MIN: i64 = -8_334_601_228_800;

/// The last moment of which the clock knows the local time, in seconds
/// since the epoch: the end of the year 262142.
pub const CLOCK_MAX: i64 = 8_210_266_876_799;

/// The clock knows the local time of the moment `seconds`.
pub open spec fn clock_places(seconds: int) -> bool {
    CLOCK_MIN <= seconds <= CLOCK_MAX
}

/// A decimal digit.
pub open spec fn is_digit_char(c: char) -> bool {
    '0' <= c <= '9'
}

/// A plus or a minus sign.
pub open spec fn is_sign_char(c: char) -> bool {
    c == '+' || c == '-'
}

/// A year as the clock writes it: four digits, or a sign and four digits or
/// more.
pub open spec fn is_year_text(y: Seq<char>) -> bool {
    ||| y.len() == 4 && forall|i: int| 0 <= i < 4 ==> is_digit_char(#[trigger] y[i])
    ||| y.len() >= 5 && is_sign_char(y[0]) && forall|i: int|
        1 <= i < y.len() ==> is_digit_char(#[trigger] y[i])
}

/// A date as the clock writes it: the year, the month and the day, with
/// hyphens between them, month and day in two digits each.
pub open spec fn is_date_text(d: Seq<char>) -> bool {
    let n = d.len() as int;
    &&& n >= 10
    &&& is_year_text(d.take(n - 6))
    &&& d[n - 6] == '-'
    &&& is_digit_char(d[n - 5])
    &&& is_digit_char(d[n - 4])
    &&& d[n - 3] == '-'
    &&& is_digit_char(d[n - 2])
    &&& is_digit_char(d[n - 1])
}

/// A time of day as the clock writes it: hours, minutes and seconds in two
/// digits each, with colons between them.
pub open spec fn is_time_text(t: Seq<char>) -> bool {
    &&& t.len() == 8
    &&& is_digit_char(t[0])
    &&& is_digit_char(t[1])
    &&& t[2] == ':'
    &&& is_digit_char(t[3])
    &&& is_digit_char(t[4])
    &&& t[5] == ':'
    &&& is_digit_char(t[6])
    &&& is_digit_char(t[7])
}

/// A time zone as the clock writes it: a sign, then how far local time is
/// from universal time in hours and minutes, and in seconds where there are
/// any, in two digits each, with colons between them.
pub open spec fn is_zone_text(z: Seq<char>) -> bool {
    &&& z.len() == 6 || z.len() == 9
    &&& is_sign_char(z[0])
    &&& is_digit_char(z[1])
    &&& is_digit_char(z[2])
    &&& z[3] == ':'
    &&& is_digit_char(z[4])
    &&& is_digit_char(z[5])
    &&& z.len() == 9 ==> z[6] == ':' && is_digit_char(z[7]) && is_digit_char(z[8])
}

/// Whether the date of `t` ends at `k`: the date, a blank at `k` and the
/// time of day; where `zone` is asked for, another blank and the time zone.
pub open spec fn is_clock_text_at(t: Seq<char>, zone: bool, k: int) -> bool {
    &&& 0 <= k
    &&& k + 9 <= t.len()
    &&& is_date_text(t.take(k))
    &&& t[k] == ' '
    &&& is_time_text(t.subrange(k + 1, k + 9))
    &&& if zone {
        k + 9 < t.len() && t[k + 9] == ' ' && is_zone_text(t.skip(k + 10))
    } else {
        t.len() == k + 9
    }
}

/// A moment as the clock writes it: the date, a blank and the time of day;
/// where `zone` is asked for, another blank and the time zone.
pub open spec fn is_clock_text(t: Seq<char>, zone: bool) -> bool {
    exists|k: int| is_clock_text_at(t, zone, k)
}

/// One of the characters of which the clock's texts are made.
pub open spec fn is_clock_char(c: char) -> bool {
    is_digit_char(c) || is_sign_char(c) || c == ':' || c == ' '
}

/// What the clock writes is made of digits, signs, colons and blanks, and
/// holds a blank.
pub proof fn lemma_clock_text_chars(t: Seq<char>, zone: bool)
    requires
        is_clock_text(t, zone),
    ensures
        forall|i: int| 0 <= i < t.len() ==> is_clock_char(#[trigger] t[i]),
        exists|i: int| 0 <= i < t.len() && #[trigger] t[i] == ' ',
{
    let k = choose|k: int| is_clock_text_at(t, zone, k);
    let d = t.take(k);
    let y = d.take(k - 6);
    let h = t.subrange(k + 1, k + 9);
    assert forall|i: int| 0 <= i < t.len() implies is_clock_char(#[trigger] t[i]) by {
        if i < k - 6 {
            assert(y[i] == t[i]);
        } else if i < k {
            assert(d[i] == t[i]);
        } else if i == k {
        } else if i < k + 9 {
            assert(h[i - k - 1] == t[i]);
        } else if i == k + 9 {
        } else {
            let z = t.skip(k + 10);
            assert(z[i - k - 10] == t[i]);
        }
    }
    assert(t[k] == ' ');
}

/// What the clock writes spells no number.
pub proof fn lemma_clock_text_is_no_number(t: Seq<char>, zone: bool)
    requires
        is_clock_text(t, zone),
    ensures
        signed_decimal(encode_utf8(t)) is None,
{
    lemma_clock_text_chars(t, zone);
    assert(is_ascii_chars(t)) by {
        assert forall|i: int| 0 <= i < t.len() implies '\0' <= #[trigger] t[i] <= '\u{7f}' by {
            assert(is_clock_char(t[i]));
        }
    }
    is_ascii_chars_encode_utf8(t);
    let bytes = encode_utf8(t);
    let i = choose|i: int| 0 <= i < t.len() && #[trigger] t[i] == ' ';
    assert(bytes[i] == 0x20u8);
    if i > 0 {
        assert(bytes.skip(1)[i - 1] == bytes[i]);
    }
}

/// The text inside an optional string.
pub open spec fn text_of(s: Option<String>) -> Option<Seq<char>> {
    match s {
        Some(t) => Some(t@),
        None => None,
    }
}

/// The moment that `raw` stands for, seen from `now`: the 64-bit integer it
/// spells, where that lies within a year of `now`.
pub open spec fn timestamp_of(raw: Seq<char>, now: int) -> Option<i64> {
    match i64_of_text(encode_utf8(raw)) {
        Some(v) => if now - YEAR <= v <= now + YEAR {
            Some(v)
        } else {
            None
        },
        None => None,
    }
}

/// The distance `delta` in words, `delta` being the present less the moment
/// spoken of; nothing beyond 90 days. The unit is the largest of which the
/// distance holds more than three days, two hours or two minutes, and the
/// count is rounded down.
pub open spec fn relative_phrase(delta: int) -> Option<Seq<char>> {
    let span = if delta < 0 { -delta } else { delta };
    if span > FAR {
        None
    } else {
        let suffix = if delta > 0 { "ago"@ } else { "from now"@ };
        if span > 3 * 24 * 60 * 60 {
            Some(natural_text((span / 86400) as nat) + " "@ + "days"@ + " "@ + suffix)
        } else if span > 2 * 60 * 60 {
            Some(natural_text((span / 3600) as nat) + " "@ + "hours"@ + " "@ + suffix)
        } else if span > 2 * 60 {
            Some(natural_text((span / 60) as nat) + " "@ + "minutes"@ + " "@ + suffix)
        } else {
            Some(natural_text(span as nat) + " "@ + "seconds"@ + " "@ + suffix)
        }
    }
}

/// A distance is put in words where it is no more than 90 days, whichever
/// way it points, and nowhere else.
pub proof fn lemma_words_within_ninety_days(delta: int)
    ensures
        relative_phrase(delta) is Some <==> -FAR <= delta <= FAR,
{
}

/// A moment lies within a year of the present, and text that spells no
/// number of 64 bits is no moment.
pub proof fn lemma_moments_are_near(raw: Seq<char>, now: int)
    ensures
        timestamp_of(raw, now) matches Some(ts) ==> now - YEAR <= ts <= now + YEAR && i64_of_text(
            encode_utf8(raw),
        ) == Some(ts),
        i64_of_text(encode_utf8(raw)) is None ==> timestamp_of(raw, now) is None,
{
}

/// A moment as it is shown, given its local time `clock` and its distance
/// from the present in words.
pub open spec fn stamp_text(format: Format, clock: Seq<char>, phrase: Option<Seq<char>>) -> Seq<
    char,
> {
    match phrase {
        Some(p) => match format {
            Format::Long => clock + " ("@ + p + ")"@,
            Format::Short => p,
        },
        None => clock,
    }
}

/// Whether `text` shows the raw value `raw` as seen from `now`. Text that is
/// no moment in time is shown as it is. A moment is shown by its distance
/// alone where the format is short and the distance is put in words;
/// otherwise by its local time with its time zone, as the clock writes it,
/// with the distance where there is one. A moment of which the clock knows
/// no local time is shown as it is.
pub open spec fn shows_value(text: Seq<char>, format: Format, raw: Seq<char>, now: int) -> bool {
    match timestamp_of(raw, now) {
        None => text == raw,
        Some(ts) => {
            let phrase = relative_phrase(now - ts);
            if format == Format::Short && phrase is Some {
                text == phrase->0
            } else if clock_places(ts as int) {
                exists|clock: Seq<char>|
                    is_clock_text(clock, true) && text == #[trigger] stamp_text(
                        format,
                        clock,
                        phrase,
                    )
            } else {
                text == raw
            }
        },
    }
}

/// A moment that lies further than 90 days from the present, and of which
/// the clock knows the local time, is shown by that time alone, whatever the
/// format: as the clock writes it, and so not as the raw value.
pub proof fn lemma_far_moment_is_clock_alone(
    text: Seq<char>,
    format: Format,
    raw: Seq<char>,
    now: int,
)
    requires
        shows_value(text, format, raw, now),
        timestamp_of(raw, now) matches Some(ts) && clock_places(ts as int) && !(-FAR <= now - ts
            <= FAR),
    ensures
        is_clock_text(text, true),
        text != raw,
{
    lemma_clock_text_is_no_number(text, true);
}

/// A moment within 90 days of the present, of which the clock knows the
/// local time, is shown in the long format by that time, as the clock
/// writes it, and behind it the distance in brackets.
pub proof fn lemma_near_moment_in_long_format(text: Seq<char>, raw: Seq<char>, now: int)
    requires
        shows_value(text, Format::Long, raw, now),
        timestamp_of(raw, now) matches Some(ts) && clock_places(ts as int) && -FAR <= now - ts
            <= FAR,
    ensures
        exists|clock: Seq<char>|
            is_clock_text(clock, true) && text == #[trigger] (clock + " ("@) + relative_phrase(
                now - timestamp_of(raw, now)->0,
            )->0 + ")"@,
{
    let ts = timestamp_of(raw, now)->0;
    let phrase = relative_phrase(now - ts);
    let clock = choose|clock: Seq<char>|
        is_clock_text(clock, true) && text == #[trigger] stamp_text(Format::Long, clock, phrase);
    assert(text == (clock + " ("@) + phrase->0 + ")"@);
}

/// Reads `value` as a moment in time near `now`.
pub fn timestamp(value: &str, now: i64) -> (ts: Option<i64>)
    ensures
        ts == timestamp_of(value@, now as int),
{
    match parse_i64(value.as_bytes()) {
        Some(v) => {
            let low: i128 = now as i128 - YEAR as i128;
            let high: i128 = now as i128 + YEAR as i128;
            if low <= v as i128 && v as i128 <= high {
                Some(v)
            } else {
                None
            }
        },
        None => None,
    }
}

/// Words for the distance `delta` between the present and a moment, where
/// it is no more than 90 days.
pub fn delta_time(delta: i64) -> (phrase: Option<String>)
    ensures
        text_of(phrase) == relative_phrase(delta as int),
{
    if delta == i64::MIN {
        return None;
    }
    let span: i64 = if delta < 0 { -delta } else { delta };
    if span > FAR {
        return None;
    }
    let suffix = if delta > 0 { "ago" } else { "from now" };
    let count: i64;
    let unit: &str;
    if span > 3 * 24 * 60 * 60 {
        count = span / 86400;
        unit = "days";
    } else if span > 2 * 60 * 60 {
        count = span / 3600;
        unit = "hours";
    } else if span > 2 * 60 {
        count = span / 60;
        unit = "minutes";
    } else {
        count = span;
        unit = "seconds";
    }
    let mut s = natural(count as u64);
    s.append(" ");
    s.append(unit);
    s.append(" ");
    s.append(suffix);
    Some(s)
}

/// Puts together what is shown of a moment from its local time and its
/// distance in words.
pub fn stamp(format: Format, clock: String, phrase: Option<String>) -> (text: String)
    ensures
        text@ == stamp_text(format, clock@, text_of(phrase)),
{
    match phrase {
        Some(p) => match format {
            Format::Long => {
                let mut s = clock;
                s.append(" (");
                s.append(p.as_str());
                s.append(")");
                s
            },
            Format::Short => p,
        },
        None => clock,
    }
}

/// The local time of the moment `seconds` after the epoch, laid out after
/// `pattern`, as `chrono::Local` gives it through `TimeZone::timestamp_opt`
/// and `DateTime::format`. There is a text for the moments of the years
/// that `chrono` counts, and for no other. Which text it is depends on the
/// time zone of the machine; each is a date, a time of day and, where the
/// pattern asks for it, a time zone, in digits.
#[verifier::external_body]
pub(crate) fn local_time(seconds: i64, pattern: &str) -> (text: Option<String>)
    requires
        pattern@ == "%F %X %Z"@ || pattern@ == "%F %X"@,
    ensures
        text is Some <==> clock_places(seconds as int),
        text matches Some(t) ==> is_clock_text(t@, pattern@ == "%F %X %Z"@),
{
    match chrono::Local.timestamp_opt(seconds, 0) {
        chrono::LocalResult::Single(moment) => Some(moment.format(pattern).to_string()),
        _ => None,
    }
}

/// Shows the raw value `value` as seen from `now`: a number within a year of
/// `now` as a moment in time, anything else unchanged.
pub fn format_value(format: Format, value: &str, now: i64) -> (text: String)
    ensures
        shows_value(text@, format, value@, now as int),
{
    match timestamp(value, now) {
        None => value.to_owned(),
        Some(ts) => {
            let phrase = delta_time(now - ts);
            if format == Format::Short && phrase.is_some() {
                return phrase.unwrap();
            }
            match local_time(ts, "%F %X %Z") {
                Some(clock) => {
                    let text = stamp(format, clock, phrase);
                    assert(text@ == stamp_text(format, clock@, relative_phrase(now - ts)));
                    text
                },
                None => value.to_owned(),
            }
        },
    }
}

} // verus!
