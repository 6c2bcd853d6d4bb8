use glaze_layout::config::SideAreasConfig;
use glaze_layout::geometry::LengthValue;
use glaze_layout::matching::{MatchType, MonitorMatchConfig, MonitorMatchError};

fn equals(s: &str) -> MatchType {
    MatchType::Equals { equals: s.to_string() }
}

fn regex(s: &str) -> MatchType {
    MatchType::Regex { regex: s.to_string() }
}

fn entry(device_name: Option<MatchType>, hardware_id: Option<MatchType>) -> MonitorMatchConfig {
    MonitorMatchConfig::from_conditions(device_name, hardware_id).unwrap()
}

fn with_match(entries: Vec<MonitorMatchConfig>) -> SideAreasConfig {
    SideAreasConfig { match_monitor: Some(entries), ..SideAreasConfig::default() }
}

#[test]
fn side_areas_default_to_disabled() {
    let config = SideAreasConfig::default();
    assert!(config.scale_with_dpi);
    assert_eq!(config.left, LengthValue::from_px(0));
    assert_eq!(config.right, LengthValue::from_px(0));
    assert!(config.match_monitor.is_none());
}

#[test]
fn side_areas_match_monitor_device_names() {
    let config = with_match(vec![entry(Some(equals("DISPLAY1")), None), entry(Some(regex("^Studio Display$")), None)]);

    assert!(config.matches_monitor("DISPLAY1", None));
    assert!(config.matches_monitor("Studio Display", None));
    assert!(!config.matches_monitor("DISPLAY2", None));
}

#[test]
fn parses_side_area_hardware_id_match() {
    let config = with_match(vec![entry(None, Some(equals("DEL439E")))]);

    assert!(config.matches_monitor(r"\\.\DISPLAY1", Some("DEL439E")));
    assert!(!config.matches_monitor(r"\\.\DISPLAY1", Some("ACR1234")));
}

#[test]
fn side_area_match_fields_are_anded_and_entries_are_ored() {
    let config = with_match(vec![
        entry(Some(equals(r"\\.\DISPLAY1")), Some(equals("DEL439E"))),
        entry(None, Some(regex("^APP"))),
    ]);

    assert!(config.matches_monitor(r"\\.\DISPLAY1", Some("DEL439E")));
    assert!(!config.matches_monitor(r"\\.\DISPLAY1", Some("ACR1234")));
    assert!(!config.matches_monitor(r"\\.\DISPLAY2", Some("DEL439E")));
    assert!(config.matches_monitor(r"\\.\DISPLAY2", Some("APP5678")));
}

#[test]
fn missing_hardware_id_never_matches_hardware_condition() {
    let config = with_match(vec![entry(None, Some(MatchType::NotEquals { not_equals: "SAM0001".to_string() }))]);

    assert!(!config.matches_monitor("DISPLAY1", None));
    assert!(config.matches_monitor("DISPLAY1", Some("DEL439E")));
    assert!(!config.matches_monitor("DISPLAY1", Some("SAM0001")));
}

#[test]
fn hardware_id_uses_existing_match_types() {
    for (matcher, matching_id, other_id) in [
        (equals("DEL439E"), "DEL439E", "ACR1234"),
        (MatchType::Includes { includes: "439".to_string() }, "DEL439E", "ACR1234"),
        (regex("^DEL[0-9A-Z]+$"), "DEL439E", "ACR1234"),
        (MatchType::NotEquals { not_equals: "ACR1234".to_string() }, "DEL439E", "ACR1234"),
        (MatchType::NotRegex { not_regex: "^ACR".to_string() }, "DEL439E", "ACR1234"),
    ] {
        let config = with_match(vec![entry(None, Some(matcher))]);

        assert!(config.matches_monitor("DISPLAY1", Some(matching_id)));
        assert!(!config.matches_monitor("DISPLAY1", Some(other_id)));
    }
}

#[test]
fn rejects_empty_side_area_monitor_match() {
    let error = MonitorMatchConfig::from_conditions(None, None).err();
    assert_eq!(error, Some(MonitorMatchError::NoCondition));
    assert!(error.unwrap().message().contains("at least one of `device_name` or `hardware_id`"));
}

#[test]
fn side_areas_without_monitor_match_apply_to_every_monitor() {
    let config = SideAreasConfig::default();

    assert!(config.matches_monitor("DISPLAY1", None));
    assert!(config.matches_monitor("Studio Display", None));
}

#[test]
fn empty_side_area_monitor_match_applies_to_no_monitors() {
    let config = with_match(vec![]);

    assert!(!config.matches_monitor("DISPLAY1", None));
}

#[test]
fn match_types_compare_text() {
    assert!(equals("a").is_match("a"));
    assert!(!equals("a").is_match("b"));
    assert!(MatchType::Includes { includes: "is".to_string() }.is_match("this"));
    assert!(!MatchType::Includes { includes: "xy".to_string() }.is_match("this"));
    assert!(MatchType::NotEquals { not_equals: "a".to_string() }.is_match("b"));
    assert!(regex("^t.*s$").is_match("this"));
    assert!(!regex("^t.*x$").is_match("this"));
    assert!(MatchType::NotRegex { not_regex: "^x".to_string() }.is_match("this"));
}

#[test]
fn an_invalid_regex_matches_nothing() {
    assert!(!regex("(").is_match("("));
    assert!(!MatchType::NotRegex { not_regex: "(".to_string() }.is_match("anything"));
}
