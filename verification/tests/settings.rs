use deckery::event::{event_from_name, event_to_str, parse_event_name, Axis, Cursor, Event, Key, Relative};
use deckery::keyed::KeyedList;
use deckery::lizard_mode::LizardModeSuppression;
use deckery::settings::{Settings, SettingsError};
use deckery::trace::{signed_text, trace_event, trace_report};
use deckery::axes::RawEvent;
use deckery::preferences::Preferences;

fn read(lines: &[(&str, &str)]) -> Result<Settings, SettingsError> {
    let mut table = KeyedList::new();
    for (name, value) in lines {
        table.insert(name.to_string(), value.to_string());
    }
    Settings::read(&table, &KeyedList::new())
}

#[test]
fn settings_have_defaults() {
    let s = read(&[]).expect("readable settings");
    assert_eq!(s.lstick.function, "cursor");
    assert_eq!(s.rstick.function, "scroll");
    assert_eq!(s.lstick.sensitivity, 0);
    assert_eq!(s.rstick.deadzone, 5);
    assert!(s.chain_only);
    assert!(!s.stadia);
    assert_eq!(s.cursor.acceleration, "1");
    assert_eq!(s.layout_switcher, None);
}

#[test]
fn every_unreadable_setting_is_named() {
    let cases = [
        ("LSTICK_SENSITIVITY", "-1", SettingsError::LstickSensitivity),
        ("LSTICK_DEADZONE", "x", SettingsError::LstickDeadzone),
        ("RSTICK_SENSITIVITY", "fast", SettingsError::RstickSensitivity),
        ("RSTICK_DEADZONE", "1.5", SettingsError::RstickDeadzone),
        ("16_BIT_AXIS", "yes", SettingsError::Axis16Bit),
        ("STADIA", "1", SettingsError::Stadia),
        ("CHAIN_ONLY", "True", SettingsError::ChainOnly),
        ("INVERT_CURSOR_AXIS", "", SettingsError::InvertCursorAxis),
        ("INVERT_SCROLL_AXIS", "no", SettingsError::InvertScrollAxis),
        ("CURSOR_SPEED", "2147483648", SettingsError::CursorSpeed),
        ("SCROLL_SPEED", "-", SettingsError::ScrollSpeed),
        ("LAYOUT_SWITCHER", "BTN_TYPO", SettingsError::LayoutSwitcher),
        ("NOTIFY_LAYOUT_SWITCH", "on", SettingsError::NotifyLayoutSwitch),
        ("CURSOR_WHEN_PAUSED", "off", SettingsError::CursorWhenPaused),
    ];
    for (name, value, error) in cases {
        assert_eq!(read(&[(name, value)]), Err(error), "{}", name);
        assert!(!error.message().is_empty());
    }
    assert_eq!(
        SettingsError::LstickSensitivity.message(),
        "Invalid value for LSTICK_SENSITIVITY, please use an integer value >= 0"
    );
}

#[test]
fn settings_are_read() {
    let s = read(&[
        ("CURSOR_SPEED", "-12"),
        ("LSTICK_SENSITIVITY", "18446744073709551615"),
        ("LAYOUT_SWITCHER", "BTN_TR-BTN_TL-BTN_SELECT"),
    ])
    .expect("readable settings");
    assert_eq!(s.cursor.speed, -12);
    assert_eq!(s.lstick.sensitivity, u64::MAX);
    let key = |k: evdev::Key| Event::Key(Key(k.code()));
    assert_eq!(
        s.layout_switcher,
        Some((key(evdev::Key::BTN_SELECT), vec![key(evdev::Key::BTN_TL), key(evdev::Key::BTN_TR)]))
    );
}

// ── Names ─────────────────────────────────────────────────────────────────────

#[test]
fn keys_are_named_like_the_kernel_names_them() {
    assert_eq!(Key::from_name("KEY_A"), Some(Key(30)));
    assert_eq!(Key(30).name(), "KEY_A");
    assert_eq!(Key::from_name("KEY_NOWHERE"), None);
    assert_eq!(Key::from_table("KEY_NOWHERE", Some(7)), Some(Key(7)));
}

#[test]
fn events_are_read_by_name() {
    assert_eq!(event_from_name("BTN_SOUTH"), Some(Event::Key(Key(evdev::Key::BTN_SOUTH.code()))));
    assert_eq!(parse_event_name("LSTICK_UP"), Some(Event::Axis(Axis::LSTICK_UP)));
    assert_eq!(parse_event_name("NOTHING"), None);
    assert_eq!(event_to_str(&Event::Axis(Axis::RSTICK_LEFT)), "RSTICK_LEFT");
    assert_eq!(Relative::from_name("CURSOR_UP"), Some(Relative::Cursor(Cursor::CURSOR_UP)));
    assert_eq!(Relative::from_name("KEY_A"), None);
}

#[test]
fn the_way_a_setting_is_written_does_not_matter() {
    let buttons = LizardModeSuppression::from_setting("buttons");
    assert_eq!(LizardModeSuppression::from_setting("  BUTTONS "), buttons);
    assert_ne!(LizardModeSuppression::from_setting("mouse"), buttons);
}

// ── Traces ────────────────────────────────────────────────────────────────────

#[test]
fn events_are_traced() {
    assert_eq!(signed_text(-12), "-12");
    assert_eq!(signed_text(i32::MIN), "-2147483648");
    assert_eq!(
        trace_event(5, &RawEvent { kind: 3, code: 1, value: -7 }),
        "{\"t_us\":5,\"src\":\"evdev\",\"type\":3,\"code\":1,\"value\":-7}"
    );
}

#[test]
fn reports_are_traced() {
    let mut raw = [0u8; 64];
    raw[10] = 0x2a;
    raw[63] = 0xff;
    let line = trace_report(6, &raw);
    assert!(line.starts_with("{\"t_us\":6,\"src\":\"hidraw\",\"byte10\":42,\"raw\":\"0000"));
    assert!(line.ends_with("00ff\"}"));
    assert_eq!(line.len(), "{\"t_us\":6,\"src\":\"hidraw\",\"byte10\":42,\"raw\":\"\"}".len() + 128);
}

// ── Preferences ───────────────────────────────────────────────────────────────

#[test]
fn modules_are_switched_on_their_own() {
    let mut p = Preferences::default();
    p.set_disabled("b", true);
    p.set_disabled("a", true);
    p.set_disabled("a", true);
    assert_eq!(p.modules.disabled, vec!["a", "b"]);
    p.set_disabled("b", false);
    assert!(p.is_disabled("a"));
    assert!(!p.is_disabled("b"));
}

#[test]
fn a_pick_enables_the_group_and_forgets_its_members_switches() {
    let mut p = Preferences::default();
    p.set_group_disabled("layout", true);
    p.set_disabled("Layout Grid", true);
    p.set_disabled("Other", true);
    p.set_group_choice(
        "layout",
        "Layout Grid",
        &vec!["Layout Grid".to_string(), "Layout Row".to_string()],
    );
    assert_eq!(p.group_choice("layout"), Some("Layout Grid"));
    assert!(!p.is_group_disabled("layout"));
    assert!(!p.is_disabled("Layout Grid"));
    assert!(p.is_disabled("Other"));
    assert_eq!(p.group_choice("theme"), None);
}
