use nap_alarm::ring::{after_look, before_play, player_arguments, ring_sound, PlayerAction, PlayerStatus};
use nap_alarm::tray::{pack_icon, AlarmTray, TrayAction, TrayMenuItem, ICON_SIZE};

#[test]
fn the_tray_shows_the_next_ring_and_offers_settings_and_quit() {
    let tray = AlarmTray { next_fire: "下次 周三 13:30".to_string() };
    assert_eq!(tray.id(), "nap-alarm");
    assert_eq!(tray.title(), "闹钟");
    assert_eq!(tray.activate(), TrayAction::OpenSettings);
    let tip = tray.tool_tip();
    assert_eq!(tip.title, "闹钟");
    assert_eq!(tip.description, "下次 周三 13:30");
    let menu = tray.menu();
    assert_eq!(menu.len(), 4);
    assert!(matches!(&menu[0], TrayMenuItem::Info { label } if label == "下次 周三 13:30"));
    assert!(matches!(&menu[1], TrayMenuItem::Separator));
    assert!(matches!(&menu[2], TrayMenuItem::Action { label, action: TrayAction::OpenSettings } if label == "设置"));
    assert!(matches!(&menu[3], TrayMenuItem::Action { label, action: TrayAction::Quit } if label == "退出"));
}

#[test]
fn the_configured_sound_wins_over_the_packaged_one() {
    assert_eq!(ring_sound("/a.ogg", Some("/b.ogg".to_string())), Some("/a.ogg".to_string()));
    assert_eq!(ring_sound("", Some("/b.ogg".to_string())), Some("/b.ogg".to_string()));
    assert_eq!(ring_sound("", None), None);
}

#[test]
fn the_sound_is_pinned_to_the_headset() {
    assert_eq!(
        player_arguments("/a.ogg", Some("bluez_output.X.1")),
        vec!["--target=bluez_output.X.1".to_string(), "/a.ogg".to_string()]
    );
    assert_eq!(player_arguments("/a.ogg", None), vec!["/a.ogg".to_string()]);
}

#[test]
fn silencing_stops_the_play_under_way() {
    assert_eq!(before_play(false), PlayerAction::Play);
    assert_eq!(before_play(true), PlayerAction::Stop);
    assert_eq!(after_look(PlayerStatus::Finished, false), PlayerAction::Play);
    assert_eq!(after_look(PlayerStatus::Playing, false), PlayerAction::Wait);
    assert_eq!(after_look(PlayerStatus::Playing, true), PlayerAction::Kill);
    assert_eq!(after_look(PlayerStatus::Finished, true), PlayerAction::Stop);
    assert_eq!(after_look(PlayerStatus::Lost, false), PlayerAction::Stop);
}

#[test]
fn the_icon_is_white_with_the_drawn_opacity() {
    let mut alpha = vec![0u8; ICON_SIZE * ICON_SIZE];
    alpha[1] = 28;
    alpha[ICON_SIZE * ICON_SIZE - 1] = 255;
    let data = pack_icon(&alpha);
    assert_eq!(data.len(), 4 * ICON_SIZE * ICON_SIZE);
    assert_eq!(&data[0..4], &[0, 0, 0, 0]);
    assert_eq!(&data[4..8], &[28, 255, 255, 255]);
    assert_eq!(&data[data.len() - 4..], &[255, 255, 255, 255]);
    assert!(data[8..data.len() - 4].iter().all(|&b| b == 0));
}
