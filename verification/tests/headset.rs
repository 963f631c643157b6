use nap_alarm::clock::{TimeOfDay, Weekday};
use nap_alarm::config::Alarm;
use nap_alarm::headset::{headset_allows, headset_sink_from, plan_rings};

const PW_DUMP_WITH_HEADSET: &str = r#"[
  {
    "id": 45,
    "type": "PipeWire:Interface:Node",
    "info": {
      "props": {
        "media.class": "Audio/Sink",
        "node.name": "alsa_output.pci-0000_00_1f.3.analog-stereo",
        "node.description": "Built-in Audio Analog Stereo"
      }
    }
  },
  {
    "id": 77,
    "type": "PipeWire:Interface:Node",
    "info": {
      "props": {
        "media.class": "Audio/Source",
        "node.name": "bluez_input.AC:80:0A:12:34:56.0"
      }
    }
  },
  {
    "id": 78,
    "type": "PipeWire:Interface:Node",
    "info": {
      "props": {
        "media.class": "Audio/Sink",
        "node.name" : "bluez_output.AC_80_0A_12_34_56.1",
        "node.description": "WH-1000XM4"
      }
    }
  }
]"#;

const PW_DUMP_WITHOUT_HEADSET: &str = r#"[
  {
    "id": 45,
    "type": "PipeWire:Interface:Node",
    "info": {
      "props": {
        "media.class": "Audio/Sink",
        "node.name": "alsa_output.pci-0000_00_1f.3.analog-stereo"
      }
    }
  }
]"#;

#[test]
fn the_bluez_sink_name_is_extracted_from_pw_dump_output() {
    assert_eq!(
        headset_sink_from(PW_DUMP_WITH_HEADSET),
        Some("bluez_output.AC_80_0A_12_34_56.1".to_string())
    );
}

#[test]
fn output_without_any_bluez_node_means_no_headset() {
    assert_eq!(headset_sink_from(PW_DUMP_WITHOUT_HEADSET), None);
    assert_eq!(headset_sink_from(""), None);
}

#[test]
fn a_headset_alarm_is_skipped_without_a_headset() {
    assert!(!headset_allows(true, &None));
    assert!(headset_allows(true, &Some("bluez_output.X.1".to_string())));
    assert!(headset_allows(false, &None));
}

fn due(label: &str, require_headset: bool) -> Alarm {
    Alarm {
        label: label.to_string(),
        time: TimeOfDay { hour: 13, minute: 30 },
        days: vec![Weekday::Mon],
        enabled: true,
        require_headset,
    }
}

#[test]
fn without_a_headset_only_the_alarms_that_need_none_ring() {
    let alarms = vec![due("a", true), due("b", false), due("c", true), due("d", false)];
    let fired = vec![0, 1, 3];
    let plan = plan_rings(&alarms, &fired, &None);
    assert_eq!(plan.ring, vec![1, 3]);
    assert_eq!(plan.skipped, vec![0]);
    let plan = plan_rings(&alarms, &fired, &Some("bluez_output.X.1".to_string()));
    assert_eq!(plan.ring, vec![0, 1, 3]);
    assert!(plan.skipped.is_empty());
    let plan = plan_rings(&alarms, &Vec::new(), &None);
    assert!(plan.ring.is_empty() && plan.skipped.is_empty());
}
