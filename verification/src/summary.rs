//! How the next ring time is told: on the tray and beside each alarm in the settings.

use vstd::prelude::*;
use vstd::string::StringExecFns;
use crate::clock::{
    minute_in_day, time_of_minute, weekday_after_monday, weekday_of, weekday_of_minute, Weekday,
};
use crate::config::{alarm_views, Alarm, AlarmView};
use crate::schedule::{
    earliest_fire, earliest_next_fire, lemma_earliest_is_minimum, next_fire, next_fire_of,
};
use crate::text::{push_two_digits, two_digit_text};

verus! {

/// The Chinese name of a weekday.
pub open spec fn weekday_label(d: Weekday) -> Seq<char> {
    match d {
        Weekday::Mon => "周一"@,
        Weekday::Tue => "周二"@,
        Weekday::Wed => "周三"@,
        Weekday::Thu => "周四"@,
        Weekday::Fri => "周五"@,
        Weekday::Sat => "周六"@,
        Weekday::Sun => "周日"@,
    }
}

/// The Chinese name of a weekday.
pub fn weekday_name(d: Weekday) -> (name: &'static str)
    ensures
        name@ == weekday_label(d),
{
    match d {
        Weekday::Mon => "周一",
        Weekday::Tue => "周二",
        Weekday::Wed => "周三",
        Weekday::Thu => "周四",
        Weekday::Fri => "周五",
        Weekday::Sat => "周六",
        Weekday::Sun => "周日",
    }
}

/// The weekdays are named 周一 to 周日, Monday first: the `n`th weekday after Monday gets
/// the `n`th name, and no two weekdays share a name.
pub proof fn lemma_weekday_labels(n: int, d: Weekday, e: Weekday)
    requires
        0 <= n < 7,
    ensures
        weekday_label(weekday_after_monday(n)) == seq![
            "周一"@,
            "周二"@,
            "周三"@,
            "周四"@,
            "周五"@,
            "周六"@,
            "周日"@,
        ][n],
        d != e ==> weekday_label(d) != weekday_label(e),
{
    reveal_strlit("周一");
    reveal_strlit("周二");
    reveal_strlit("周三");
    reveal_strlit("周四");
    reveal_strlit("周五");
    reveal_strlit("周六");
    reveal_strlit("周日");
    if d != e {
        assert(weekday_label(d)[1] != weekday_label(e)[1]);
    }
}

/// "下次 周三 13:30": the weekday and time of local minute `m`.
pub open spec fn fire_description(m: int) -> Seq<char> {
    "下次 "@ + weekday_label(weekday_of(m)) + " "@ + two_digit_text(minute_in_day(m) / 60) + ":"@
        + two_digit_text(minute_in_day(m) % 60)
}

fn describe_fire(m: u64) -> (s: String)
    ensures
        s@ == fire_description(m as int),
{
    let t = time_of_minute(m);
    let mut s = String::from_str("下次 ");
    s.append(weekday_name(weekday_of_minute(m)));
    s.append(" ");
    push_two_digits(&mut s, t.hour);
    s.append(":");
    push_two_digits(&mut s, t.minute);
    proof {
        assert(t.hour == minute_in_day(m as int) / 60);
        assert(t.minute == minute_in_day(m as int) % 60);
    }
    s
}

/// What the settings window shows beside an alarm: when it rings next, or that it never
/// will.
pub open spec fn next_fire_line(a: AlarmView, now: int) -> Seq<char> {
    match next_fire_of(a, now) {
        Some(m) => fire_description(m),
        None => "不会响"@,
    }
}

/// The text beside an alarm in the settings window.
pub fn next_fire_text(alarm: &Alarm, now: u64) -> (text: String)
    requires
        now <= u64::MAX - 9 * 1440,
    ensures
        text@ == next_fire_line(alarm@, now as int),
{
    match next_fire(alarm, now) {
        Some(m) => describe_fire(m),
        None => String::from_str("不会响"),
    }
}

/// What the tray shows: the earliest next ring over all alarms, or that there is none.
pub open spec fn summary_line(alarms: Seq<AlarmView>, now: int) -> Seq<char> {
    match earliest_next_fire(alarms, now) {
        Some(m) => fire_description(m),
        None => "没有闹钟"@,
    }
}

/// The tray's text.
pub fn next_fire_summary(alarms: &Vec<Alarm>, now: u64) -> (text: String)
    requires
        now <= u64::MAX - 9 * 1440,
    ensures
        text@ == summary_line(alarm_views(alarms@), now as int),
{
    match earliest_fire(alarms, now) {
        Some(m) => describe_fire(m),
        None => String::from_str("没有闹钟"),
    }
}

/// Every next ring that an alarm of `a` has is also the next ring of some alarm of `b`.
pub open spec fn next_fires_within(a: Seq<AlarmView>, b: Seq<AlarmView>, now: int) -> bool {
    forall|i: int|
        0 <= i < a.len() && (#[trigger] next_fire_of(a[i], now)) is Some ==> exists|j: int|
            0 <= j < b.len() && next_fire_of(#[trigger] b[j], now) == next_fire_of(a[i], now)
}

/// The tray's text depends only on which next rings the alarms have: the same alarms in
/// another order, or with alarms added or taken away that never ring again (a disabled
/// alarm among them), give the same text.
pub proof fn lemma_summary_ignores_order_and_silent_alarms(
    a: Seq<AlarmView>,
    b: Seq<AlarmView>,
    now: int,
)
    requires
        next_fires_within(a, b, now),
        next_fires_within(b, a, now),
    ensures
        earliest_next_fire(a, now) == earliest_next_fire(b, now),
        summary_line(a, now) == summary_line(b, now),
{
    lemma_earliest_is_minimum(a, now);
    lemma_earliest_is_minimum(b, now);
    match earliest_next_fire(a, now) {
        Some(x) => {
            let i = choose|i: int| 0 <= i < a.len() && next_fire_of(#[trigger] a[i], now) == Some(x);
            let j = choose|j: int|
                0 <= j < b.len() && next_fire_of(#[trigger] b[j], now) == next_fire_of(a[i], now);
            let y = earliest_next_fire(b, now)->0;
            let k = choose|k: int| 0 <= k < b.len() && next_fire_of(#[trigger] b[k], now) == Some(y);
            let l = choose|l: int|
                0 <= l < a.len() && next_fire_of(#[trigger] a[l], now) == next_fire_of(b[k], now);
            assert(x <= y);
        },
        None => {
            if earliest_next_fire(b, now) is Some {
                let y = earliest_next_fire(b, now)->0;
                let k = choose|k: int| 0 <= k < b.len() && next_fire_of(#[trigger] b[k], now) == Some(y);
                let l = choose|l: int|
                    0 <= l < a.len() && next_fire_of(#[trigger] a[l], now) == next_fire_of(b[k], now);
                assert(next_fire_of(a[l], now) is None);
            }
        },
    }
}

/// With a single alarm, the tray says what the settings window says beside that alarm
/// whenever it rings again; when it never rings again, the tray says "没有闹钟" and the
/// settings window "不会响".
pub proof fn lemma_single_alarm_summary(a: AlarmView, now: int)
    ensures
        earliest_next_fire(seq![a], now) == next_fire_of(a, now),
        next_fire_of(a, now) is Some ==> summary_line(seq![a], now) == next_fire_line(a, now),
        next_fire_of(a, now) is None ==> summary_line(seq![a], now) == "没有闹钟"@
            && next_fire_line(a, now) == "不会响"@,
{
    let s = seq![a];
    assert(s.drop_last() =~= Seq::<AlarmView>::empty());
    assert(earliest_next_fire(s.drop_last(), now) is None);
    assert(s.last() == a);
}

} // verus!
