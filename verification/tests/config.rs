use nap_alarm::clock::{format_time, parse_time_input, TimeOfDay, Weekday};
use nap_alarm::config::{default_alarm, sort_days, weekday_flags, Alarm, Config};
use nap_alarm::config_file::{load_from, parse, to_text, ConfigError};

fn same_alarm(a: &Alarm, b: &Alarm) -> bool {
    a.label == b.label
        && a.time == b.time
        && a.days == b.days
        && a.enabled == b.enabled
        && a.require_headset == b.require_headset
}

fn sample() -> Config {
    Config {
        sound: "/home/me/铃声 \"响\".ogg".to_string(),
        alarms: vec![
            Alarm {
                label: "午休结束".to_string(),
                time: TimeOfDay { hour: 13, minute: 30 },
                days: vec![Weekday::Mon, Weekday::Tue, Weekday::Wed, Weekday::Thu, Weekday::Fri],
                enabled: true,
                require_headset: true,
            },
            Alarm {
                label: "tab\there\\ and # not a comment\nsecond line".to_string(),
                time: TimeOfDay { hour: 0, minute: 5 },
                days: vec![],
                enabled: false,
                require_headset: false,
            },
        ],
    }
}

#[test]
fn config_round_trips_through_toml() {
    let config = sample();
    let text = to_text(&config);
    let back = parse(&text).unwrap_or_else(|e| panic!("{}", e.message()));
    assert_eq!(back.sound, config.sound);
    assert_eq!(back.alarms.len(), config.alarms.len());
    for (a, b) in back.alarms.iter().zip(config.alarms.iter()) {
        assert!(same_alarm(a, b));
    }
}

#[test]
fn the_written_file_looks_like_the_readme() {
    let mut config = Config::default();
    config.set_sound("/path/to/ring.ogg".to_string());
    config.add_alarm();
    config.set_label(0, "午休结束".to_string());
    let text = to_text(&config);
    assert_eq!(
        text,
        "sound = \"/path/to/ring.ogg\"\n\n[[alarm]]\nlabel = \"午休结束\"\ntime = \"13:30\"\ndays = [\"mon\", \"tue\", \"wed\", \"thu\", \"fri\"]\nenabled = true\nrequire_headset = true\n"
    );
}

#[test]
fn a_missing_config_file_yields_an_empty_alarm_list() {
    let config = load_from(None).unwrap_or_else(|e| panic!("{}", e.message()));
    assert!(config.alarms.is_empty());
    assert_eq!(config.sound, "");
    let empty_file = load_from(Some("")).unwrap_or_else(|e| panic!("{}", e.message()));
    assert!(empty_file.alarms.is_empty());
}

#[test]
fn an_unparsable_time_is_rejected_with_the_offending_value() {
    let text = "[[alarm]]\nlabel = \"nap\"\ntime = \"25:99\"\n";
    match parse(text) {
        Err(ConfigError::BadTime { line, value }) => {
            assert_eq!(line, 3);
            assert_eq!(value, "25:99");
        }
        _ => panic!("a bad time must be refused"),
    }
    let message = parse(text).err().map(|e| e.message()).unwrap_or_default();
    assert!(message.contains("25:99"), "{message}");
    assert_eq!(message, "配置第 3 行:时间 \"25:99\" 认不出来,应当形如 13:30");
}

#[test]
fn an_unknown_weekday_name_is_rejected() {
    let text = "[[alarm]]\ntime = \"13:30\"\ndays = [\"mon\", \"tuesday\"]\n";
    match parse(text) {
        Err(ConfigError::BadWeekday { line, value }) => {
            assert_eq!(line, 3);
            assert_eq!(value, "tuesday");
        }
        _ => panic!("a misspelt weekday must be refused"),
    }
}

#[test]
fn hand_written_files_are_read() {
    let text = "# my alarms\r\nsound = \"\"  # the default tone\r\n\r\n  [[alarm]]  \r\n\ttime = \"07:05\"\r\ndays = [ \"sat\" , \"sun\", ]\r\n";
    let config = parse(text).unwrap_or_else(|e| panic!("{}", e.message()));
    assert_eq!(config.sound, "");
    assert_eq!(config.alarms.len(), 1);
    let a = &config.alarms[0];
    assert_eq!(a.label, "");
    assert_eq!(a.time, TimeOfDay { hour: 7, minute: 5 });
    assert_eq!(a.days, vec![Weekday::Sat, Weekday::Sun]);
    assert!(a.enabled);
    assert!(a.require_headset);
}

#[test]
fn each_mistake_names_its_line() {
    match parse("sound = \"a\"\nthis is not toml\n") {
        Err(ConfigError::BadLine { line, text }) => {
            assert_eq!(line, 2);
            assert_eq!(text, "this is not toml");
        }
        _ => panic!("expected a bad line"),
    }
    match parse("volume = \"loud\"\n") {
        Err(ConfigError::UnknownKey { line, key }) => {
            assert_eq!(line, 1);
            assert_eq!(key, "volume");
        }
        _ => panic!("expected an unknown key"),
    }
    match parse("[[alarm]]\ntime = \"13:30\"\nenabled = \"yes\"\n") {
        Err(ConfigError::WrongType { line, key }) => {
            assert_eq!(line, 3);
            assert_eq!(key, "enabled");
        }
        _ => panic!("expected a wrong type"),
    }
    match parse("[[alarm]]\ntime = \"13:30\"\ntime = \"14:00\"\n") {
        Err(ConfigError::DuplicateKey { line, key }) => {
            assert_eq!(line, 3);
            assert_eq!(key, "time");
        }
        _ => panic!("expected a duplicate key"),
    }
    match parse("[[alarm]]\nlabel = \"x\"\n\n[[alarm]]\ntime = \"13:30\"\n") {
        Err(ConfigError::MissingTime { line }) => assert_eq!(line, 1),
        _ => panic!("expected a missing time"),
    }
    match parse("sound = \"bad \\q escape\"\n") {
        Err(ConfigError::BadLine { line, .. }) => assert_eq!(line, 1),
        _ => panic!("expected a bad line"),
    }
}

#[test]
fn error_messages_carry_the_value() {
    let e = ConfigError::BadWeekday { line: 12, value: "mond".to_string() };
    assert_eq!(e.message(), "配置第 12 行:星期 \"mond\" 认不出来,应当是 mon 到 sun 之一");
    let e = ConfigError::MissingTime { line: 4 };
    assert_eq!(e.message(), "配置第 4 行起的闹钟没有写时间");
}

#[test]
fn the_default_alarm_is_a_workday_nap() {
    let a = default_alarm();
    assert_eq!(a.label, "闹钟");
    assert_eq!(a.time, TimeOfDay { hour: 13, minute: 30 });
    assert_eq!(a.days, vec![Weekday::Mon, Weekday::Tue, Weekday::Wed, Weekday::Thu, Weekday::Fri]);
    assert!(a.enabled && a.require_headset);
}

#[test]
fn clicking_a_weekday_toggles_it_and_keeps_the_order() {
    let mut config = Config::default();
    config.add_alarm();
    config.toggle_day(0, 6);
    assert_eq!(
        config.alarms[0].days,
        vec![Weekday::Mon, Weekday::Tue, Weekday::Wed, Weekday::Thu, Weekday::Fri, Weekday::Sun]
    );
    config.toggle_day(0, 2);
    assert_eq!(
        config.alarms[0].days,
        vec![Weekday::Mon, Weekday::Tue, Weekday::Thu, Weekday::Fri, Weekday::Sun]
    );
    config.toggle_day(0, 2);
    config.toggle_day(0, 6);
    assert_eq!(config.alarms[0].days, default_alarm().days);
    assert_eq!(
        weekday_flags(&config.alarms[0].days),
        vec![true, true, true, true, true, false, false]
    );
}

#[test]
fn sorting_keeps_every_listed_day() {
    let days = vec![Weekday::Sun, Weekday::Mon, Weekday::Sun, Weekday::Wed];
    assert_eq!(sort_days(&days), vec![Weekday::Mon, Weekday::Wed, Weekday::Sun, Weekday::Sun]);
}

#[test]
fn the_settings_edits_change_one_alarm() {
    let mut config = Config::default();
    config.add_alarm();
    config.add_alarm();
    config.toggle_enabled(1);
    config.toggle_headset(0);
    assert!(config.alarms[0].enabled && !config.alarms[0].require_headset);
    assert!(!config.alarms[1].enabled && config.alarms[1].require_headset);
    assert!(config.set_time(1, "07:45"));
    assert_eq!(config.alarms[1].time, TimeOfDay { hour: 7, minute: 45 });
    assert!(!config.set_time(1, "7 o'clock"));
    assert_eq!(config.alarms[1].time, TimeOfDay { hour: 7, minute: 45 });
    config.delete_alarm(0);
    assert_eq!(config.alarms.len(), 1);
    assert!(!config.alarms[0].enabled);
}

#[test]
fn typed_times_are_read_by_chrono() {
    assert_eq!(parse_time_input("13:30"), Some(TimeOfDay { hour: 13, minute: 30 }));
    assert_eq!(parse_time_input("9:05"), Some(TimeOfDay { hour: 9, minute: 5 }));
    assert_eq!(parse_time_input("24:00"), None);
    assert_eq!(parse_time_input("13:60"), None);
    assert_eq!(parse_time_input("noon"), None);
    assert_eq!(format_time(TimeOfDay { hour: 9, minute: 5 }), "09:05");
}

#[test]
fn typed_times_follow_the_hour_minute_format() {
    assert_eq!(parse_time_input("7:15"), Some(TimeOfDay { hour: 7, minute: 15 }));
    assert_eq!(parse_time_input("09:5"), Some(TimeOfDay { hour: 9, minute: 5 }));
    assert_eq!(parse_time_input(" 9:05"), Some(TimeOfDay { hour: 9, minute: 5 }));
    assert_eq!(parse_time_input("9: 05"), Some(TimeOfDay { hour: 9, minute: 5 }));
    assert_eq!(parse_time_input("\u{3000}23:59"), Some(TimeOfDay { hour: 23, minute: 59 }));
    assert_eq!(parse_time_input("9:05 "), None);
    assert_eq!(parse_time_input("009:05"), None);
    assert_eq!(parse_time_input("9 :05"), None);
    assert_eq!(parse_time_input(":05"), None);
    assert_eq!(parse_time_input("9:"), None);
    assert_eq!(parse_time_input(""), None);
}

#[test]
fn clicking_weekdays_keeps_each_weekday_once() {
    let mut config = Config::default();
    config.add_alarm();
    config.alarms[0].days = vec![Weekday::Mon, Weekday::Wed];
    config.toggle_day(0, 1);
    assert_eq!(config.alarms[0].days, vec![Weekday::Mon, Weekday::Tue, Weekday::Wed]);
    config.toggle_day(0, 0);
    assert_eq!(config.alarms[0].days, vec![Weekday::Tue, Weekday::Wed]);
    config.toggle_day(0, 6);
    assert_eq!(config.alarms[0].days, vec![Weekday::Tue, Weekday::Wed, Weekday::Sun]);
}
