use nap_alarm::clock::{time_of_minute, weekday_of_minute, TimeOfDay, Weekday};
use nap_alarm::config::Alarm;
use nap_alarm::schedule::{earliest_fire, fires_in_minute, next_fire, Scheduler};
use nap_alarm::summary::{next_fire_summary, next_fire_text, weekday_name};

/// 2024-01-01, a Monday, counted in days from 1970-01-01.
const MONDAY: u64 = 19723;

fn minute_at(day: u64, hour: u64, minute: u64) -> u64 {
    day * 1440 + hour * 60 + minute
}

fn alarm(hour: u8, minute: u8, days: Vec<Weekday>, enabled: bool) -> Alarm {
    Alarm {
        label: "午休结束".to_string(),
        time: TimeOfDay { hour, minute },
        days,
        enabled,
        require_headset: true,
    }
}

fn workdays() -> Vec<Weekday> {
    vec![Weekday::Mon, Weekday::Tue, Weekday::Wed, Weekday::Thu, Weekday::Fri]
}

#[test]
fn the_local_minute_gives_weekday_and_time() {
    assert_eq!(weekday_of_minute(0), Weekday::Thu);
    assert_eq!(weekday_of_minute(minute_at(MONDAY, 13, 30)), Weekday::Mon);
    assert_eq!(weekday_of_minute(minute_at(MONDAY + 6, 23, 59)), Weekday::Sun);
    assert_eq!(time_of_minute(minute_at(MONDAY, 13, 30)), TimeOfDay { hour: 13, minute: 30 });
}

#[test]
fn alarm_fires_on_a_listed_weekday_at_its_exact_minute() {
    let alarms = vec![alarm(13, 30, workdays(), true)];
    let mut scheduler = Scheduler::new();
    assert_eq!(scheduler.poll(&alarms, minute_at(MONDAY, 13, 30)), vec![0]);
    assert!(fires_in_minute(&alarms[0], minute_at(MONDAY + 2, 13, 30)));
    assert!(!fires_in_minute(&alarms[0], minute_at(MONDAY, 13, 29)));
    assert!(!fires_in_minute(&alarms[0], minute_at(MONDAY, 13, 31)));
}

#[test]
fn alarm_stays_silent_on_a_weekday_it_does_not_list() {
    let alarms = vec![alarm(13, 30, workdays(), true)];
    let mut scheduler = Scheduler::new();
    let saturday = MONDAY + 5;
    assert_eq!(scheduler.poll(&alarms, minute_at(saturday, 13, 30)), Vec::<usize>::new());
    assert!(!fires_in_minute(&alarms[0], minute_at(saturday + 1, 13, 30)));
}

#[test]
fn disabled_alarm_never_fires() {
    let alarms = vec![alarm(13, 30, workdays(), false)];
    let mut scheduler = Scheduler::new();
    assert_eq!(scheduler.poll(&alarms, minute_at(MONDAY, 13, 30)), Vec::<usize>::new());
    assert_eq!(next_fire(&alarms[0], minute_at(MONDAY, 9, 0)), None);
}

#[test]
fn alarm_fires_only_once_within_the_same_minute() {
    let alarms = vec![alarm(13, 30, workdays(), true), alarm(13, 30, vec![Weekday::Mon], true)];
    let mut scheduler = Scheduler::new();
    let minute = minute_at(MONDAY, 13, 30);
    // polled three times in the minute, every 20 seconds
    assert_eq!(scheduler.poll(&alarms, minute), vec![0, 1]);
    assert_eq!(scheduler.poll(&alarms, minute), Vec::<usize>::new());
    assert_eq!(scheduler.poll(&alarms, minute), Vec::<usize>::new());
    // the next week it rings again
    assert_eq!(scheduler.poll(&alarms, minute + 7 * 1440), vec![0, 1]);
}

#[test]
fn next_fire_skips_to_the_following_week_when_today_is_already_past() {
    let only_monday = alarm(13, 30, vec![Weekday::Mon], true);
    let afternoon = minute_at(MONDAY, 15, 0);
    assert_eq!(next_fire(&only_monday, afternoon), Some(minute_at(MONDAY + 7, 13, 30)));
    let morning = minute_at(MONDAY, 9, 0);
    assert_eq!(next_fire(&only_monday, morning), Some(minute_at(MONDAY, 13, 30)));
}

#[test]
fn a_minute_missed_while_suspended_does_not_fire_late() {
    let alarms = vec![alarm(13, 30, workdays(), true)];
    let mut scheduler = Scheduler::new();
    assert_eq!(scheduler.poll(&alarms, minute_at(MONDAY, 13, 29)), Vec::<usize>::new());
    // the lid was closed over 13:30; the machine wakes hours later
    assert_eq!(scheduler.poll(&alarms, minute_at(MONDAY, 17, 2)), Vec::<usize>::new());
    assert_eq!(scheduler.poll(&alarms, minute_at(MONDAY, 17, 3)), Vec::<usize>::new());
}

#[test]
fn the_exact_ring_minute_is_not_its_own_next_fire() {
    let daily = alarm(
        7,
        5,
        vec![
            Weekday::Mon,
            Weekday::Tue,
            Weekday::Wed,
            Weekday::Thu,
            Weekday::Fri,
            Weekday::Sat,
            Weekday::Sun,
        ],
        true,
    );
    let at = minute_at(MONDAY, 7, 5);
    assert_eq!(next_fire(&daily, at), Some(minute_at(MONDAY + 1, 7, 5)));
    assert_eq!(next_fire(&daily, at - 1), Some(at));
}

#[test]
fn an_alarm_without_weekdays_never_rings() {
    let none = alarm(13, 30, vec![], true);
    assert_eq!(next_fire(&none, minute_at(MONDAY, 9, 0)), None);
    assert_eq!(next_fire_text(&none, minute_at(MONDAY, 9, 0)), "不会响");
}

#[test]
fn an_out_of_range_time_never_rings() {
    let broken = alarm(24, 0, workdays(), true);
    assert_eq!(next_fire(&broken, minute_at(MONDAY, 9, 0)), None);
    assert!(!fires_in_minute(&broken, minute_at(MONDAY + 1, 0, 0)));
}

#[test]
fn the_tray_shows_the_earliest_next_ring() {
    let alarms = vec![alarm(13, 30, vec![Weekday::Fri], true), alarm(8, 5, vec![Weekday::Wed], true)];
    let now = minute_at(MONDAY, 10, 0);
    assert_eq!(earliest_fire(&alarms, now), Some(minute_at(MONDAY + 2, 8, 5)));
    assert_eq!(next_fire_summary(&alarms, now), "下次 周三 08:05");
    assert_eq!(next_fire_text(&alarms[0], now), "下次 周五 13:30");
    assert_eq!(next_fire_summary(&Vec::new(), now), "没有闹钟");
}

#[test]
fn weekday_names_are_chinese() {
    assert_eq!(weekday_name(Weekday::Mon), "周一");
    assert_eq!(weekday_name(Weekday::Sun), "周日");
}

#[test]
fn the_tray_ignores_order_and_disabled_alarms() {
    let now = minute_at(MONDAY, 10, 0);
    let friday = alarm(13, 30, vec![Weekday::Fri], true);
    let wednesday = alarm(8, 5, vec![Weekday::Wed], true);
    let off = alarm(10, 1, workdays(), false);
    let one_way = vec![friday, alarm(8, 5, vec![Weekday::Wed], true)];
    let other_way = vec![off, wednesday, alarm(13, 30, vec![Weekday::Fri], true)];
    assert_eq!(next_fire_summary(&one_way, now), "下次 周三 08:05");
    assert_eq!(next_fire_summary(&other_way, now), "下次 周三 08:05");
}

#[test]
fn one_alarm_reads_the_same_on_the_tray_and_in_its_row() {
    let now = minute_at(MONDAY, 10, 0);
    let only = alarm(13, 30, vec![Weekday::Fri], true);
    let text = next_fire_text(&only, now);
    assert_eq!(text, "下次 周五 13:30");
    assert_eq!(next_fire_summary(&vec![only], now), text);
    let off = alarm(13, 30, vec![Weekday::Fri], false);
    assert_eq!(next_fire_text(&off, now), "不会响");
    assert_eq!(next_fire_summary(&vec![off], now), "没有闹钟");
}
