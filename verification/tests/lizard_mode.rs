use deckery::lizard_mode::{
    make_clear_mappings_report, make_click_pressure_report, make_disable_settings_report,
    make_settings_report, LizardModeSuppression, ID_CLEAR_DIGITAL_MAPPINGS, ID_SET_SETTINGS_VALUES,
    SETTING_LEFT_TRACKPAD_CLICK_PRESSURE, SETTING_LEFT_TRACKPAD_MODE,
    SETTING_RIGHT_TRACKPAD_CLICK_PRESSURE, TRACKPAD_NONE,
};


#[test]
fn from_setting_parses_known_values() {
    let both = LizardModeSuppression::from_setting("buttons,mouse").unwrap();
    assert!(both.suppress_buttons && both.suppress_mouse);

    let buttons = LizardModeSuppression::from_setting("buttons").unwrap();
    assert!(buttons.suppress_buttons && !buttons.suppress_mouse);

    let mouse = LizardModeSuppression::from_setting("mouse").unwrap();
    assert!(!mouse.suppress_buttons && mouse.suppress_mouse);
}

#[test]
fn from_setting_rejects_disabled_values() {
    assert!(LizardModeSuppression::from_setting("false").is_none());
    assert!(LizardModeSuppression::from_setting("off").is_none());
    assert!(LizardModeSuppression::from_setting("none").is_none());
    assert!(LizardModeSuppression::from_setting("0").is_none());
}

#[test]
fn from_setting_rejects_unrecognised() {
    assert!(LizardModeSuppression::from_setting("everything").is_none());
    assert!(LizardModeSuppression::from_setting("").is_none());
}

#[test]
fn make_settings_report_header() {
    let r = make_settings_report(&[(7u8, 0u16)]);
    assert_eq!(r[0], ID_SET_SETTINGS_VALUES);
    assert_eq!(r[1], 3); // 1 setting × 3 bytes
    assert_eq!(r[2], 7); // index
    assert_eq!(r[3], 0); // value lo
    assert_eq!(r[4], 0); // value hi
}

#[test]
fn make_clear_mappings_report_id() {
    let r = make_clear_mappings_report();
    assert_eq!(r[0], ID_CLEAR_DIGITAL_MAPPINGS);
    assert!(r[1..].iter().all(|&b| b == 0));
}

#[test]
fn make_disable_settings_report_has_trackpad_none() {
    let r = make_disable_settings_report();
    assert_eq!(r[0], ID_SET_SETTINGS_VALUES);
    // First setting at offset 2: SETTING_LEFT_TRACKPAD_MODE = 7, value = TRACKPAD_NONE = 7
    assert_eq!(r[2], SETTING_LEFT_TRACKPAD_MODE);
    assert_eq!(u16::from_le_bytes([r[3], r[4]]), TRACKPAD_NONE);
    // Click pressure is no longer part of this report — it is managed separately.
    let n = r[1] as usize / 3; // number of settings
    for i in 0..n {
        let idx = r[2 + i * 3];
        assert_ne!(idx, SETTING_LEFT_TRACKPAD_CLICK_PRESSURE,  "click pressure must not appear in disable report");
        assert_ne!(idx, SETTING_RIGHT_TRACKPAD_CLICK_PRESSURE, "click pressure must not appear in disable report");
    }
}

#[test]
fn make_click_pressure_report_round_trips() {
    let r = make_click_pressure_report(1000, 2000);
    assert_eq!(r[0], ID_SET_SETTINGS_VALUES);
    assert_eq!(r[1], 6); // 2 settings × 3 bytes
    assert_eq!(r[2], SETTING_LEFT_TRACKPAD_CLICK_PRESSURE);
    assert_eq!(u16::from_le_bytes([r[3], r[4]]), 1000);
    assert_eq!(r[5], SETTING_RIGHT_TRACKPAD_CLICK_PRESSURE);
    assert_eq!(u16::from_le_bytes([r[6], r[7]]), 2000);
}
