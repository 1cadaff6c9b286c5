use deckery::axes::{RawEvent, Step, EV_ABS, EV_KEY};
use deckery::config::Config;
use deckery::event::{Combo, Cursor, Event, Key, Relative, Scroll};
use deckery::keyed::KeyedList;
use deckery::reader::{Action, EventReader, Sink};
use deckery::settings::Settings;
use deckery::state_export::ActionValue;

fn code(k: evdev::Key) -> Key {
    Key(k.code())
}

fn button(k: evdev::Key) -> Event {
    Event::Key(code(k))
}

fn settings(lines: &[(&str, &str)]) -> Settings {
    let mut table = KeyedList::new();
    for (name, value) in lines {
        table.insert(name.to_string(), value.to_string());
    }
    Settings::read(&table, &KeyedList::new()).expect("readable settings")
}

fn sent(k: evdev::Key, value: i32) -> Action {
    Action::Send { sink: Sink::Keys, event: RawEvent { kind: EV_KEY, code: k.code(), value } }
}

/// The events that were sent, without what is written out.
fn turn(r: &mut EventReader, config: &Config, settings: &Settings, k: evdev::Key, value: i32) -> Vec<Action> {
    let raw = RawEvent { kind: EV_KEY, code: k.code(), value };
    r.convert_event(config, settings, raw, button(k), value, false, 1_000);
    r.take_actions().into_iter().filter(|a| *a != Action::Export).collect()
}

/// BTN_SOUTH sends KEY_ENTER; BTN_TL-BTN_NORTH sends KEY_LEFTCTRL and KEY_C.
fn config() -> Config {
    let mut c = Config::new_empty("test".to_string());
    c.bindings.remap.insert(Combo::plain(button(evdev::Key::BTN_SOUTH)), vec![code(evdev::Key::KEY_ENTER)]);
    c.bindings.remap.insert(
        Combo::new(button(evdev::Key::BTN_NORTH), vec![button(evdev::Key::BTN_TL)]),
        vec![code(evdev::Key::KEY_LEFTCTRL), code(evdev::Key::KEY_C)],
    );
    c.bindings.labels.insert(
        Combo::new(button(evdev::Key::BTN_NORTH), vec![button(evdev::Key::BTN_TL)]),
        "Copy".to_string(),
    );
    c.mapped_modifiers.custom = vec![button(evdev::Key::BTN_TL)];
    c.mapped_modifiers.all = vec![button(evdev::Key::BTN_TL)];
    c
}

#[test]
fn a_remap_sends_its_keys_down_and_up() {
    let (c, s) = (config(), settings(&[]));
    let mut r = EventReader::new();
    assert_eq!(turn(&mut r, &c, &s, evdev::Key::BTN_SOUTH, 1), vec![sent(evdev::Key::KEY_ENTER, 1)]);
    assert_eq!(r.held_keys, vec![button(evdev::Key::BTN_SOUTH)]);
    assert_eq!(turn(&mut r, &c, &s, evdev::Key::BTN_SOUTH, 0), vec![sent(evdev::Key::KEY_ENTER, 0)]);
    assert!(r.held_keys.is_empty());
}

#[test]
fn what_no_binding_speaks_of_is_handed_on() {
    let (c, s) = (config(), settings(&[]));
    let mut r = EventReader::new();
    assert_eq!(turn(&mut r, &c, &s, evdev::Key::BTN_EAST, 1), vec![sent(evdev::Key::BTN_EAST, 1)]);
    r.emit_default_event(RawEvent { kind: EV_ABS, code: 3, value: 9 });
    assert_eq!(
        r.take_actions(),
        vec![Action::Send { sink: Sink::Abs, event: RawEvent { kind: EV_ABS, code: 3, value: 9 } }]
    );
}

#[test]
fn a_combo_is_sent_and_told() {
    let (c, s) = (config(), settings(&[]));
    let mut r = EventReader::new();
    turn(&mut r, &c, &s, evdev::Key::BTN_TL, 1);
    assert_eq!(r.modifiers, vec![button(evdev::Key::BTN_TL)]);
    let down = turn(&mut r, &c, &s, evdev::Key::BTN_NORTH, 1);
    assert!(down.ends_with(&[sent(evdev::Key::KEY_LEFTCTRL, 1), sent(evdev::Key::KEY_C, 1)]));
    let last = r.last_action.as_ref().expect("a last action");
    assert_eq!(last.kind, "keys");
    assert_eq!(last.label.as_deref(), Some("Copy"));
    assert_eq!(
        last.value,
        ActionValue::Keys(vec!["KEY_LEFTCTRL".to_string(), "KEY_C".to_string()])
    );
    turn(&mut r, &c, &s, evdev::Key::BTN_NORTH, 0);
    turn(&mut r, &c, &s, evdev::Key::BTN_TL, 0);
    assert!(r.modifiers.is_empty());
}

#[test]
fn a_modifier_that_modified_nothing_is_a_tap() {
    let (c, s) = (config(), settings(&[]));
    let mut r = EventReader::new();
    assert_eq!(
        turn(&mut r, &c, &s, evdev::Key::BTN_TL, 1),
        vec![sent(evdev::Key::KEY_ENTER, 0)],
        "what buttons send without it is let go"
    );
    assert_eq!(
        turn(&mut r, &c, &s, evdev::Key::BTN_TL, 0),
        vec![
            sent(evdev::Key::KEY_LEFTCTRL, 0),
            sent(evdev::Key::KEY_C, 0),
            sent(evdev::Key::BTN_TL, 1),
            sent(evdev::Key::BTN_TL, 0),
        ]
    );
}

#[test]
fn a_modifier_that_was_down_before_the_start_is_no_tap() {
    let (c, s) = (config(), settings(&[]));
    let mut r = EventReader::new();
    assert!(r.modifier_was_activated);
    assert_eq!(
        turn(&mut r, &c, &s, evdev::Key::BTN_TL, 0),
        vec![sent(evdev::Key::KEY_ENTER, 0)],
        "what buttons send without it is let go, and nothing else"
    );
}

#[test]
fn nothing_is_sent_while_paused() {
    let (c, s) = (config(), settings(&[]));
    let mut r = EventReader::new();
    r.paused = true;
    for k in [evdev::Key::BTN_SOUTH, evdev::Key::BTN_EAST, evdev::Key::BTN_NORTH] {
        assert_eq!(turn(&mut r, &c, &s, k, 1), vec![]);
        assert_eq!(turn(&mut r, &c, &s, k, 0), vec![]);
    }
}

#[test]
fn gaming_mode_swallows_presses_but_no_release() {
    let (mut c, s) = (config(), settings(&[]));
    let mut r = EventReader::new();
    turn(&mut r, &c, &s, evdev::Key::BTN_SOUTH, 1);
    r.gaming_mode = true;
    assert_eq!(turn(&mut r, &c, &s, evdev::Key::BTN_SOUTH, 2), vec![]);
    assert_eq!(turn(&mut r, &c, &s, evdev::Key::BTN_SOUTH, 0), vec![sent(evdev::Key::KEY_ENTER, 0)]);
    assert_eq!(turn(&mut r, &c, &s, evdev::Key::BTN_SOUTH, 1), vec![]);
    c.bindings.while_gaming.insert(Combo::plain(button(evdev::Key::BTN_SOUTH)), ());
    assert_eq!(turn(&mut r, &c, &s, evdev::Key::BTN_SOUTH, 1), vec![sent(evdev::Key::KEY_ENTER, 1)]);
}

#[test]
fn a_command_runs_on_the_press_alone() {
    let (mut c, s) = (config(), settings(&[]));
    c.bindings.commands.insert(
        Combo::plain(button(evdev::Key::BTN_MODE)),
        vec!["one".to_string(), "two".to_string()],
    );
    let mut r = EventReader::new();
    let run = Action::Spawn { commands: vec!["one".to_string(), "two".to_string()] };
    assert_eq!(turn(&mut r, &c, &s, evdev::Key::BTN_MODE, 1), vec![run]);
    let last = r.last_action.as_ref().expect("a last action");
    assert_eq!(last.value, ActionValue::Text("one two".to_string()));
    assert_eq!(turn(&mut r, &c, &s, evdev::Key::BTN_MODE, 0), vec![]);
}

#[test]
fn a_command_that_ignores_pauses_runs_while_paused() {
    let (mut c, s) = (config(), settings(&[]));
    let mode = Combo::plain(button(evdev::Key::BTN_MODE));
    c.bindings.commands.insert(mode.clone(), vec!["hud".to_string()]);
    let mut r = EventReader::new();
    r.paused = true;
    assert_eq!(turn(&mut r, &c, &s, evdev::Key::BTN_MODE, 1), vec![]);
    c.bindings.no_pause.insert(mode, ());
    assert_eq!(
        turn(&mut r, &c, &s, evdev::Key::BTN_MODE, 1),
        vec![Action::Spawn { commands: vec!["hud".to_string()] }]
    );
}

#[test]
fn movements_follow_their_keys() {
    let mut r = EventReader::new();
    r.emit_movement(Relative::Cursor(Cursor::CURSOR_UP), 1);
    r.emit_movement(Relative::Cursor(Cursor::CURSOR_RIGHT), 1);
    r.emit_movement(Relative::Scroll(Scroll::SCROLL_DOWN), 1);
    assert_eq!(r.cursor_movement, (1, -1));
    assert_eq!(r.scroll_movement, (0, 1));
    r.emit_movement(Relative::Cursor(Cursor::CURSOR_UP), 0);
    assert_eq!(r.cursor_movement, (1, 0));
}

#[test]
fn the_layout_switcher_switches() {
    let (c, s) = (config(), settings(&[("LAYOUT_SWITCHER", "BTN_SELECT")]));
    let mut r = EventReader::new();
    assert!(turn(&mut r, &c, &s, evdev::Key::BTN_SELECT, 1).contains(&Action::ChangeLayout));
    assert!(!turn(&mut r, &c, &s, evdev::Key::BTN_SELECT, 0).contains(&Action::ChangeLayout));
}

#[test]
fn held_buttons_stay_in_order_and_without_doubles() {
    let mut r = EventReader::new();
    r.track_held(button(evdev::Key::BTN_TR), 1);
    r.track_held(button(evdev::Key::BTN_SOUTH), 1);
    r.track_held(button(evdev::Key::BTN_TR), 1);
    assert_eq!(r.held_keys, vec![button(evdev::Key::BTN_SOUTH), button(evdev::Key::BTN_TR)]);
    r.track_held(button(evdev::Key::BTN_SOUTH), 0);
    assert_eq!(r.held_keys, vec![button(evdev::Key::BTN_TR)]);
}

#[test]
fn what_a_device_asks_for_is_done() {
    let (c, s) = (config(), settings(&[]));
    let mut r = EventReader::new();
    let raw = RawEvent { kind: EV_KEY, code: evdev::Key::BTN_SOUTH.code(), value: 1 };
    let press = Step::Convert { event: button(evdev::Key::BTN_SOUTH), value: 1, send_zero: false };
    r.obey(press, &c, &s, raw, 0);
    assert!(r.take_actions().contains(&sent(evdev::Key::KEY_ENTER, 1)));
    r.obey(Step::Nothing, &c, &s, raw, 0);
    assert_eq!(r.take_actions(), vec![]);
    let pen = RawEvent { kind: EV_ABS, code: 0, value: 5 };
    r.paused = true;
    r.obey(Step::Default, &c, &s, raw, 0);
    assert_eq!(r.take_actions(), vec![]);
    r.obey(Step::Pen { events: vec![pen] }, &c, &s, raw, 0);
    assert_eq!(r.take_actions(), vec![Action::Send { sink: Sink::Abs, event: pen }]);
}

#[test]
fn events_change_the_held_buttons_one_at_a_time() {
    let (c, s) = (config(), settings(&[]));
    let (south, tl, north) = (evdev::Key::BTN_SOUTH, evdev::Key::BTN_TL, evdev::Key::BTN_NORTH);
    let mut r = EventReader::new();
    turn(&mut r, &c, &s, tl, 1);
    turn(&mut r, &c, &s, north, 1);
    turn(&mut r, &c, &s, north, 2);
    turn(&mut r, &c, &s, south, 1);
    turn(&mut r, &c, &s, south, 1);
    assert_eq!(r.held_keys, vec![button(south), button(north), button(tl)]);
    let raw = RawEvent { kind: EV_ABS, code: 0, value: 1 };
    r.convert_event(&c, &s, raw, Event::Axis(deckery::event::Axis::LSTICK_UP), 1, false, 1_000);
    assert_eq!(r.held_keys, vec![button(south), button(north), button(tl)]);
    turn(&mut r, &c, &s, north, 0);
    turn(&mut r, &c, &s, north, 0);
    assert_eq!(r.held_keys, vec![button(south), button(tl)]);
}

#[test]
fn a_combo_is_let_go_after_its_modifier() {
    let (c, s) = (config(), settings(&[]));
    let mut r = EventReader::new();
    turn(&mut r, &c, &s, evdev::Key::BTN_TL, 1);
    turn(&mut r, &c, &s, evdev::Key::BTN_NORTH, 1);
    turn(&mut r, &c, &s, evdev::Key::BTN_TL, 0);
    let out = turn(&mut r, &c, &s, evdev::Key::BTN_NORTH, 0);
    assert!(out.contains(&sent(evdev::Key::KEY_LEFTCTRL, 0)));
    assert!(out.contains(&sent(evdev::Key::KEY_C, 0)));
    assert!(r.emitted_outputs.is_empty());
}

#[test]
fn a_release_lets_go_even_while_paused() {
    let (c, s) = (config(), settings(&[]));
    let mut r = EventReader::new();
    turn(&mut r, &c, &s, evdev::Key::BTN_SOUTH, 1);
    r.paused = true;
    assert_eq!(turn(&mut r, &c, &s, evdev::Key::BTN_SOUTH, 0), vec![sent(evdev::Key::KEY_ENTER, 0)]);
    assert!(turn(&mut r, &c, &s, evdev::Key::BTN_SOUTH, 1).is_empty());
    assert!(turn(&mut r, &c, &s, evdev::Key::BTN_SOUTH, 0).is_empty());
}

#[test]
fn a_remap_that_ignores_pauses_is_sent_while_paused() {
    let (mut c, s) = (config(), settings(&[]));
    let south = button(evdev::Key::BTN_SOUTH);
    c.bindings.no_pause.insert(Combo::plain(south), ());
    let mut r = EventReader::new();
    r.paused = true;
    assert_eq!(turn(&mut r, &c, &s, evdev::Key::BTN_SOUTH, 1), vec![sent(evdev::Key::KEY_ENTER, 1)]);
    assert_eq!(turn(&mut r, &c, &s, evdev::Key::BTN_SOUTH, 0), vec![sent(evdev::Key::KEY_ENTER, 0)]);
}

#[test]
fn a_hold_binding_that_ignores_pauses_is_sent_while_paused() {
    let (mut c, s) = (config(), settings(&[("CHAIN_ONLY", "false")]));
    let west = button(evdev::Key::BTN_WEST);
    let hold = || Combo::new(west, vec![Event::Hold]);
    c.bindings.remap.insert(hold(), vec![code(evdev::Key::KEY_H)]);
    let mut r = EventReader::new();
    r.paused = true;
    assert!(turn(&mut r, &c, &s, evdev::Key::BTN_WEST, 1).is_empty());
    c.bindings.no_pause.insert(hold(), ());
    assert_eq!(turn(&mut r, &c, &s, evdev::Key::BTN_WEST, 1), vec![sent(evdev::Key::KEY_H, 1)]);
}

#[test]
fn nothing_moves_while_paused() {
    let (mut c, s) = (config(), settings(&[]));
    let (west, tl) = (button(evdev::Key::BTN_WEST), button(evdev::Key::BTN_TL));
    c.bindings.remap.insert(Combo::new(west, vec![tl]), vec![code(evdev::Key::KEY_W)]);
    c.bindings.movements.insert(Combo::plain(west), Relative::Cursor(Cursor::CURSOR_LEFT));
    let mut r = EventReader::new();
    r.paused = true;
    turn(&mut r, &c, &s, evdev::Key::BTN_WEST, 1);
    assert_eq!(r.cursor_movement, (0, 0));
    r.paused = false;
    turn(&mut r, &c, &s, evdev::Key::BTN_WEST, 1);
    assert_eq!(r.cursor_movement, (-1, 0));
    turn(&mut r, &c, &s, evdev::Key::BTN_WEST, i32::MIN);
    assert_eq!(r.cursor_movement, (i32::MIN, 0));
}
