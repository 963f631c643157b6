//! Weekdays, times of day, and the local wall clock counted in minutes.
//!
//! The daemon hands the library the local wall-clock time as a number of minutes since
//! 1970-01-01 00:00 (local time, no time zone). Everything the schedule needs, the
//! weekday and the minute of the day, follows from that number by arithmetic.

use vstd::prelude::*;
use crate::text::{
    digit_char, digit_value, is_digit, leading_space, lemma_digit_char, push_two_digits,
    two_digit_text,
};
#[allow(unused_imports)]
use chrono::Timelike;

verus! {

/// A day of the week, Monday first.
#[derive(PartialEq, Eq, Structural, Clone, Copy, Debug)]
pub enum Weekday {
    Mon,
    Tue,
    Wed,
    Thu,
    Fri,
    Sat,
    Sun,
}

/// Days since Monday: 0 for Monday up to 6 for Sunday.
pub open spec fn day_number(d: Weekday) -> int {
    match d {
        Weekday::Mon => 0,
        Weekday::Tue => 1,
        Weekday::Wed => 2,
        Weekday::Thu => 3,
        Weekday::Fri => 4,
        Weekday::Sat => 5,
        Weekday::Sun => 6,
    }
}

/// The weekday `n` days after a Monday (`n` taken modulo 7).
pub open spec fn weekday_after_monday(n: int) -> Weekday {
    let r = n % 7;
    if r == 0 {
        Weekday::Mon
    } else if r == 1 {
        Weekday::Tue
    } else if r == 2 {
        Weekday::Wed
    } else if r == 3 {
        Weekday::Thu
    } else if r == 4 {
        Weekday::Fri
    } else if r == 5 {
        Weekday::Sat
    } else {
        Weekday::Sun
    }
}

pub proof fn lemma_day_number_round_trip(d: Weekday)
    ensures
        0 <= day_number(d) < 7,
        weekday_after_monday(day_number(d)) == d,
{
}

impl Weekday {
    /// Days since Monday.
    pub fn num_days_from_monday(self) -> (n: u8)
        ensures
            n == day_number(self),
            n < 7,
    {
        match self {
            Weekday::Mon => 0,
            Weekday::Tue => 1,
            Weekday::Wed => 2,
            Weekday::Thu => 3,
            Weekday::Fri => 4,
            Weekday::Sat => 5,
            Weekday::Sun => 6,
        }
    }

    /// The weekday `n` days after Monday.
    pub fn from_monday(n: u8) -> (d: Weekday)
        requires
            n < 7,
        ensures
            d == weekday_after_monday(n as int),
            day_number(d) == n,
    {
        if n == 0 {
            Weekday::Mon
        } else if n == 1 {
            Weekday::Tue
        } else if n == 2 {
            Weekday::Wed
        } else if n == 3 {
            Weekday::Thu
        } else if n == 4 {
            Weekday::Fri
        } else if n == 5 {
            Weekday::Sat
        } else {
            Weekday::Sun
        }
    }
}

/// A time of day to the minute.
#[derive(PartialEq, Eq, Structural, Clone, Copy, Debug)]
pub struct TimeOfDay {
    pub hour: u8,
    pub minute: u8,
}

impl TimeOfDay {
    /// An hour of 0 to 23 and a minute of 0 to 59.
    pub open spec fn wf(self) -> bool {
        self.hour < 24 && self.minute < 60
    }

    /// Minutes since midnight.
    pub open spec fn minute_of_day(self) -> int {
        self.hour * 60 + self.minute
    }

    /// A time of day, if `hour` and `minute` are in range.
    pub fn new(hour: u8, minute: u8) -> (t: Option<TimeOfDay>)
        ensures
            t == (if hour < 24 && minute < 60 {
                Some(TimeOfDay { hour, minute })
            } else {
                None
            }),
    {
        if hour < 24 && minute < 60 {
            Some(TimeOfDay { hour, minute })
        } else {
            None
        }
    }
}

/// Minutes in a day.
pub const MINUTES_PER_DAY: u64 = 1440;

/// The day, counted from 1970-01-01, that local minute `m` falls on.
pub open spec fn day_of(m: int) -> int {
    m / 1440
}

/// Minutes since midnight at local minute `m`.
pub open spec fn minute_in_day(m: int) -> int {
    m % 1440
}

/// The weekday of local minute `m`; 1970-01-01 was a Thursday.
pub open spec fn weekday_of(m: int) -> Weekday {
    weekday_after_monday(m / 1440 + 3)
}

/// The weekday of the day numbered `day` from 1970-01-01.
pub open spec fn weekday_of_day(day: int) -> Weekday {
    weekday_after_monday(day + 3)
}

/// The weekday of local minute `m`.
pub fn weekday_of_minute(m: u64) -> (d: Weekday)
    ensures
        d == weekday_of(m as int),
{
    let n: u64 = (m / MINUTES_PER_DAY + 3) % 7;
    Weekday::from_monday(n as u8)
}

/// The time of day of local minute `m`.
pub fn time_of_minute(m: u64) -> (t: TimeOfDay)
    ensures
        t.wf(),
        t.minute_of_day() == minute_in_day(m as int),
{
    let r: u64 = m % MINUTES_PER_DAY;
    TimeOfDay { hour: (r / 60) as u8, minute: (r % 60) as u8 }
}

/// `HH:MM`, both zero-padded to two digits.
pub open spec fn time_text(t: TimeOfDay) -> Seq<char> {
    two_digit_text(t.hour as int) + seq![':'] + two_digit_text(t.minute as int)
}

/// Writes a time of day as `HH:MM`.
pub fn format_time(t: TimeOfDay) -> (s: String)
    requires
        t.wf(),
    ensures
        s@ == time_text(t),
{
    let mut out = String::new();
    push_two_digits(&mut out, t.hour);
    out.push(':');
    push_two_digits(&mut out, t.minute);
    proof {
        assert(out@ =~= time_text(t));
    }
    out
}

/// The time of day written exactly as `HH:MM`: two digits, a colon, two digits, with the
/// hour below 24 and the minute below 60.
pub open spec fn time_from_text(s: Seq<char>) -> Option<TimeOfDay> {
    if s.len() == 5 && is_digit(s[0]) && is_digit(s[1]) && s[2] == ':' && is_digit(s[3])
        && is_digit(s[4]) {
        let h = digit_value(s[0]) * 10 + digit_value(s[1]);
        let m = digit_value(s[3]) * 10 + digit_value(s[4]);
        if h < 24 && m < 60 {
            Some(TimeOfDay { hour: h as u8, minute: m as u8 })
        } else {
            None
        }
    } else {
        None
    }
}

/// Reading back a written time of day gives the same time.
pub proof fn lemma_time_text_round_trip(t: TimeOfDay)
    requires
        t.wf(),
    ensures
        time_from_text(time_text(t)) == Some(t),
{
    lemma_digit_char((t.hour as int) / 10);
    lemma_digit_char((t.hour as int) % 10);
    lemma_digit_char((t.minute as int) / 10);
    lemma_digit_char((t.minute as int) % 10);
    let s = time_text(t);
    assert(s[0] == digit_char((t.hour as int) / 10));
    assert(s[1] == digit_char((t.hour as int) % 10));
    assert(s[2] == ':');
    assert(s[3] == digit_char((t.minute as int) / 10));
    assert(s[4] == digit_char((t.minute as int) % 10));
}

/// Reads a time of day written exactly as `HH:MM`.
pub fn parse_time_field(s: &Vec<char>) -> (t: Option<TimeOfDay>)
    ensures
        t == time_from_text(s@),
        t matches Some(t) ==> t.wf(),
{
    if s.len() != 5 {
        return None;
    }
    let (a, b, c, d) = (s[0], s[1], s[3], s[4]);
    if !('0' <= a && a <= '9' && '0' <= b && b <= '9' && s[2] == ':' && '0' <= c && c <= '9'
        && '0' <= d && d <= '9') {
        return None;
    }
    let h: u32 = (a as u32 - 48) * 10 + (b as u32 - 48);
    let m: u32 = (c as u32 - 48) * 10 + (d as u32 - 48);
    if h < 24 && m < 60 {
        Some(TimeOfDay { hour: h as u8, minute: m as u8 })
    } else {
        None
    }
}

/// How many ASCII digits, at most two, `s` starts with.
pub open spec fn leading_digits(s: Seq<char>) -> int {
    if s.len() >= 2 && is_digit(s[0]) && is_digit(s[1]) {
        2
    } else if s.len() >= 1 && is_digit(s[0]) {
        1
    } else {
        0
    }
}

/// The number written by the first `n` characters of `s` (one or two digits).
pub open spec fn digits_number(s: Seq<char>, n: int) -> int {
    if n == 2 {
        digit_value(s[0]) * 10 + digit_value(s[1])
    } else {
        digit_value(s[0])
    }
}

/// `s` without its leading white space.
pub open spec fn skip_space(s: Seq<char>) -> Seq<char> {
    s.skip(leading_space(s) as int)
}

/// The hour and minute that the format `%H:%M` reads from `text`: white space may come
/// before each number; each number is one or two ASCII digits; a colon stands between them;
/// nothing may follow the minute; the hour is below 24 and the minute below 60.
pub open spec fn hour_minute_of(text: Seq<char>) -> Option<(u8, u8)> {
    let a = skip_space(text);
    let hn = leading_digits(a);
    let b = a.skip(hn);
    if hn == 0 || b.len() == 0 || b[0] != ':' {
        None
    } else {
        let d = skip_space(b.skip(1));
        let mn = leading_digits(d);
        let h = digits_number(a, hn);
        let m = digits_number(d, mn);
        if mn == 0 || d.len() != mn || h >= 24 || m >= 60 {
            None
        } else {
            Some((h as u8, m as u8))
        }
    }
}

/// Calls chrono's `NaiveTime::parse_from_str` with the format `"%H:%M"` and returns the
/// hour and minute of the time it parsed. Claimed of it: the result is `hour_minute_of` the
/// text. In chrono's parser each numeric field first skips leading white space
/// (`str::trim_start`), then reads one or two ASCII digits; the colon is a literal that must
/// come next; text left over after the minute is an error; the hour must lie in 0..=23 and
/// the minute in 0..=59; seconds default to zero.
#[verifier::external_body]
fn chrono_parse_hour_minute(text: &str) -> (r: Option<(u8, u8)>)
    ensures
        r == hour_minute_of(text@),
{
    match chrono::NaiveTime::parse_from_str(text, "%H:%M") {
        Ok(time) => Some((time.hour() as u8, time.minute() as u8)),
        Err(_) => None,
    }
}

/// The time of day read from text typed into the settings window.
pub open spec fn time_from_input(text: Seq<char>) -> Option<TimeOfDay> {
    match hour_minute_of(text) {
        Some((h, m)) => Some(TimeOfDay { hour: h, minute: m }),
        None => None,
    }
}

/// Text written exactly as `HH:MM` reads as that time.
pub proof fn lemma_exact_text_is_input(text: Seq<char>)
    requires
        time_from_text(text) is Some,
    ensures
        time_from_input(text) == time_from_text(text),
{
    let a = skip_space(text);
    assert(leading_space(text) == 0);
    assert(a =~= text);
    let b = a.skip(2);
    assert(b[0] == text[2]);
    let c = b.skip(1);
    assert(c =~= text.skip(3));
    assert(c[0] == text[3]);
    assert(leading_space(c) == 0);
    assert(skip_space(c) =~= c);
    assert(c.len() == 2 && c[1] == text[4]);
}

/// Reads a time typed into the settings window, as chrono's `%H:%M` does.
pub fn parse_time_input(text: &str) -> (t: Option<TimeOfDay>)
    ensures
        t == time_from_input(text@),
        t matches Some(t) ==> t.wf(),
        time_from_text(text@) matches Some(exact) ==> t == Some(exact),
{
    proof {
        if time_from_text(text@) is Some {
            lemma_exact_text_is_input(text@);
        }
    }
    match chrono_parse_hour_minute(text) {
        Some((hour, minute)) => Some(TimeOfDay { hour, minute }),
        None => None,
    }
}

} // verus!
