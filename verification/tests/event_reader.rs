use deckery::axes::{RawEvent, EV_KEY};
use deckery::config::Config;
use deckery::event::{Axis, Combo, Event, Key};
use deckery::keyed::KeyedList;
use deckery::reader::{
    gaming_mode_suppresses, gaming_mode_tracks_modifier, stick_loop_active, Action, EventReader,
    Sink,
};
use deckery::settings::Settings;

fn key(k: evdev::Key) -> Event {
    Event::Key(Key(k.code()))
}

fn code(k: evdev::Key) -> Key {
    Key(k.code())
}

/// BTN_START sends KEY_F10, with BTN_TL a combo; BTN_NORTH sends KEY_BACKSPACE.
fn config() -> Config {
    let mut c = Config::new_empty("test".to_string());
    let (start, tl) = (key(evdev::Key::BTN_START), key(evdev::Key::BTN_TL));
    c.bindings.remap.insert(Combo::plain(start), vec![code(evdev::Key::KEY_F10)]);
    c.bindings.remap.insert(
        Combo::new(start, vec![tl]),
        vec![
            code(evdev::Key::KEY_LEFTALT),
            code(evdev::Key::KEY_LEFTCTRL),
            code(evdev::Key::KEY_Z),
        ],
    );
    c.bindings.remap.insert(
        Combo::plain(key(evdev::Key::BTN_NORTH)),
        vec![code(evdev::Key::KEY_BACKSPACE)],
    );
    c.mapped_modifiers.custom = vec![tl];
    c.mapped_modifiers.all = vec![tl];
    c
}

/// Hand an event to the reader. What was let go comes back.
fn turn(r: &mut EventReader, event: Event, value: i32) -> Vec<Key> {
    let settings = Settings::read(&KeyedList::new(), &KeyedList::new()).expect("settings");
    let code = match event {
        Event::Key(k) => k.0,
        _ => 0,
    };
    let raw = RawEvent { kind: EV_KEY, code, value };
    r.convert_event(&config(), &settings, raw, event, value, false, 1_000);
    r.take_actions()
        .into_iter()
        .filter_map(|a| match a {
            Action::Send { sink: Sink::Keys, event } if event.value == 0 => Some(Key(event.code)),
            _ => None,
        })
        .collect()
}

// ── emitted_outputs ───────────────────────────────────────────────────────

/// The button lifecycle: a press stores the output, a release retrieves and
/// clears it.
#[test]
fn emitted_outputs_stores_and_releases_on_key_up() {
    let mut r = EventReader::new();
    let button = key(evdev::Key::BTN_START);
    turn(&mut r, button, 1);
    let stored = r.emitted_outputs.get(&button).cloned();
    assert!(stored.is_some(), "entry must exist for held button on release");
    assert_eq!(stored.unwrap(), vec![code(evdev::Key::KEY_F10)]);
    assert_eq!(turn(&mut r, button, 0), vec![code(evdev::Key::KEY_F10)]);
    assert!(r.emitted_outputs.is_empty());
}

/// When a combo fires mid-hold and overwrites the stored output, releasing the
/// button must release the NEW output, not the stale base remap, even where the
/// modifier has gone by then.
#[test]
fn emitted_outputs_overwritten_by_combo_releases_combo_keys() {
    let mut r = EventReader::new();
    let (button, tl) = (key(evdev::Key::BTN_START), key(evdev::Key::BTN_TL));
    let combo = vec![
        code(evdev::Key::KEY_LEFTALT),
        code(evdev::Key::KEY_LEFTCTRL),
        code(evdev::Key::KEY_Z),
    ];
    turn(&mut r, button, 1);
    turn(&mut r, tl, 1);
    turn(&mut r, button, 2);
    let stored = r.emitted_outputs.get(&button).cloned();
    assert!(stored.is_some());
    assert_eq!(stored.unwrap(), combo);
    turn(&mut r, tl, 0);
    assert_eq!(turn(&mut r, button, 0), combo);
    assert!(r.emitted_outputs.is_empty());
}

/// A button pressed in combo context has no entry before the combo stores its
/// keys.
#[test]
fn emitted_outputs_empty_before_first_store() {
    let mut r = EventReader::new();
    let button = key(evdev::Key::BTN_START);
    turn(&mut r, key(evdev::Key::BTN_TL), 1);
    assert!(r.emitted_outputs.get(&button).is_none(), "no entry exists before first insertion");
}

/// Non-key events (axes, scroll) are not tracked.
#[test]
fn emitted_outputs_ignores_axis_events() {
    let mut r = EventReader::new();
    let axis = Event::Axis(Axis::BTN_DPAD_UP);
    assert!(!matches!(axis, Event::Key(_)));
    turn(&mut r, axis, 1);
    assert!(r.emitted_outputs.is_empty());
}

/// Multiple held buttons store their outputs independently.
#[test]
fn emitted_outputs_tracks_multiple_buttons_independently() {
    let mut r = EventReader::new();
    let (start, north) = (key(evdev::Key::BTN_START), key(evdev::Key::BTN_NORTH));
    turn(&mut r, start, 1);
    turn(&mut r, north, 1);
    assert_eq!(turn(&mut r, start, 0), vec![code(evdev::Key::KEY_F10)]);
    assert!(r.emitted_outputs.contains_key(&north));
    assert_eq!(
        r.emitted_outputs.get(&north).cloned(),
        Some(vec![code(evdev::Key::KEY_BACKSPACE)])
    );
    assert_eq!(turn(&mut r, north, 0), vec![code(evdev::Key::KEY_BACKSPACE)]);
    assert!(r.emitted_outputs.is_empty());
}

// ── gaming_mode_suppresses ────────────────────────────────────────────────

/// Key-up (value=0) must NEVER be suppressed regardless of while_gaming.
/// Without this, releasing a held button in Gaming Mode leaves it stuck.
#[test]
fn key_up_never_suppressed() {
    assert!(!gaming_mode_suppresses(0, false),
        "key-up without while_gaming must not be suppressed");
    assert!(!gaming_mode_suppresses(0, true),
        "key-up with while_gaming must not be suppressed either");
}

/// Key-down of a normal (non-while_gaming) binding must be suppressed.
#[test]
fn key_down_suppressed_without_while_gaming() {
    assert!(gaming_mode_suppresses(1, false),
        "key-down without while_gaming must be suppressed");
}

/// Key-repeat (value=2) of a normal binding must also be suppressed.
#[test]
fn key_repeat_suppressed_without_while_gaming() {
    assert!(gaming_mode_suppresses(2, false),
        "key-repeat without while_gaming must be suppressed");
}

/// while_gaming bindings must pass through on both press and repeat.
#[test]
fn while_gaming_binding_not_suppressed() {
    assert!(!gaming_mode_suppresses(1, true),
        "key-down with while_gaming=true must NOT be suppressed");
    assert!(!gaming_mode_suppresses(2, true),
        "key-repeat with while_gaming=true must NOT be suppressed");
}

// ── gaming_mode_tracks_modifier ───────────────────────────────────────────

/// A mapped modifier (e.g. BTN_TL) must be tracked even in Gaming Mode
/// so combo state is consistent when Gaming Mode is disabled mid-hold.
#[test]
fn modifier_event_is_tracked_in_gaming_mode() {
    let btn_tl = key(evdev::Key::BTN_TL);
    let mapped = vec![btn_tl, key(evdev::Key::BTN_TR)];
    assert!(gaming_mode_tracks_modifier(&btn_tl, &mapped),
        "BTN_TL in mapped_modifiers must return true");
}

/// A non-modifier button must NOT be tracked as a modifier.
#[test]
fn non_modifier_event_not_tracked_in_gaming_mode() {
    let btn_south = key(evdev::Key::BTN_SOUTH);
    let mapped = vec![key(evdev::Key::BTN_TL), key(evdev::Key::BTN_TR)];
    assert!(!gaming_mode_tracks_modifier(&btn_south, &mapped),
        "BTN_SOUTH not in mapped_modifiers must return false");
}

/// Empty mapped_modifiers list → nothing is ever tracked.
#[test]
fn no_mapped_modifiers_nothing_tracked() {
    let btn_tl = key(evdev::Key::BTN_TL);
    assert!(!gaming_mode_tracks_modifier(&btn_tl, &vec![]),
        "empty mapped_modifiers must never match");
}

// ── stick_loop_active ─────────────────────────────────────────────────────

/// Normal operating state — not paused, not gaming: stick loop runs.
#[test]
fn stick_loop_active_normally() {
    assert!(stick_loop_active(false, false, false));
}

/// Gaming Mode active → stick loop must be suppressed.
#[test]
fn stick_loop_suppressed_in_gaming_mode() {
    assert!(!stick_loop_active(false, false, true),
        "gaming_mode=true must suppress stick loop");
    // Even cursor_when_paused cannot override gaming_mode suppression.
    assert!(!stick_loop_active(false, true, true),
        "cursor_when_paused does not override gaming_mode");
}

/// Paused without cursor_when_paused → stick loop suppressed.
#[test]
fn stick_loop_suppressed_when_paused() {
    assert!(!stick_loop_active(true, false, false),
        "paused=true without cursor_when_paused must suppress stick loop");
}

/// cursor_when_paused restores stick loop while paused, but not in Gaming Mode.
#[test]
fn stick_loop_cursor_when_paused_overrides_pause_but_not_gaming_mode() {
    assert!(stick_loop_active(true, true, false),
        "cursor_when_paused must allow stick loop while paused");
    assert!(!stick_loop_active(true, true, true),
        "cursor_when_paused must NOT allow stick loop in Gaming Mode");
}

/// Both paused and gaming_mode — stick loop suppressed.
#[test]
fn stick_loop_suppressed_when_both_paused_and_gaming_mode() {
    assert!(!stick_loop_active(true, false, true));
    assert!(!stick_loop_active(true, true, true));
}
