use deckery::axes::{RawEvent, EV_KEY, EV_REL};
use deckery::config::DoubleclickTrigger;
use deckery::event::{Axis, Event, Key};
use deckery::keyed::KeyedList;
use deckery::loops::{
    change_active_layout, config_stack, control_command, control_word, key_tick, launch,
    layout_notice_command, release_held_modifiers, stick_for, stick_tick, Motion, TriggerRun,
};
use deckery::settings::Settings;

fn settings(lines: &[(&str, &str)]) -> Settings {
    let mut table = KeyedList::new();
    for (name, value) in lines {
        table.insert(name.to_string(), value.to_string());
    }
    Settings::read(&table, &KeyedList::new()).expect("readable settings")
}

fn rel(code: u16, value: i32) -> RawEvent {
    RawEvent { kind: EV_REL, code, value }
}

#[test]
fn the_left_stick_goes_first() {
    let both = settings(&[
        ("LSTICK", "cursor"),
        ("LSTICK_SENSITIVITY", "7"),
        ("RSTICK", "cursor"),
        ("RSTICK_SENSITIVITY", "7"),
    ]);
    assert_eq!(stick_for(&both, Motion::Cursor), Some(true));
    assert_eq!(stick_for(&both, Motion::Scroll), None);
    let right = settings(&[("RSTICK", "scroll"), ("RSTICK_SENSITIVITY", "9")]);
    assert_eq!(stick_for(&right, Motion::Scroll), Some(false));
    assert_eq!(stick_for(&right, Motion::Cursor), None, "no speed is set");
}

#[test]
fn a_stick_moves_what_it_is_set_to() {
    let s = settings(&[("INVERT_SCROLL_AXIS", "true")]);
    let none = vec![];
    assert_eq!(
        stick_tick(&s, Motion::Cursor, true, (3, -4), &none, false, false),
        vec![rel(0, 3), rel(1, -4)]
    );
    assert_eq!(
        stick_tick(&s, Motion::Scroll, false, (3, -4), &none, false, false),
        vec![rel(12, -3), rel(11, 4)]
    );
    assert_eq!(stick_tick(&s, Motion::Cursor, true, (0, 0), &none, false, false), vec![]);
    assert_eq!(stick_tick(&s, Motion::Cursor, true, (3, 0), &none, true, false), vec![]);
    assert_eq!(stick_tick(&s, Motion::Cursor, true, (3, 0), &none, false, true), vec![]);
}

#[test]
fn a_stick_waits_for_its_modifiers() {
    let s = settings(&[("LSTICK_ACTIVATION_MODIFIERS", "BTN_TL")]);
    let tl = Event::Key(Key(evdev::Key::BTN_TL.code()));
    assert_eq!(stick_tick(&s, Motion::Cursor, true, (1, 1), &vec![], false, false), vec![]);
    assert_eq!(stick_tick(&s, Motion::Cursor, true, (1, 1), &vec![tl], false, false).len(), 2);
}

#[test]
fn keys_move_at_their_speed() {
    assert_eq!(key_tick((1, -1), 5, Motion::Cursor, false, false), vec![rel(0, 5), rel(1, -5)]);
    assert_eq!(key_tick((0, 1), 5, Motion::Scroll, false, false), vec![rel(11, 5)]);
    assert_eq!(key_tick((0, 0), 5, Motion::Cursor, false, false), vec![]);
    assert_eq!(key_tick((1, 0), 5, Motion::Cursor, true, false), vec![]);
    assert_eq!(key_tick((1, 0), 5, Motion::Cursor, true, true), vec![rel(0, 5)]);
}

#[test]
fn layouts_are_switched_in_a_circle() {
    let there = [true, false, true, false];
    assert_eq!(change_active_layout(0, &there), 2);
    assert_eq!(change_active_layout(2, &there), 0);
    assert_eq!(change_active_layout(3, &there), 0);
    assert_eq!(change_active_layout(0, &[true, false, false, false]), 0);
}

#[test]
fn a_switch_of_layouts_is_told() {
    assert_eq!(
        layout_notice_command(2),
        "notify-send -t 500 'Makima' 'Switching to layout 2'"
    );
}

#[test]
fn commands_run_as_the_user() {
    let some = |s: &str| Some(s.to_string());
    let sudo = launch(&some("deck"), &some("root"), "kcalc").expect("a launch");
    assert_eq!(sudo.program, "runuser");
    assert_eq!(sudo.arguments, vec!["deck", "-c", "kcalc"]);
    assert!(sudo.detached);
    let own = launch(&None, &some("deck"), "kcalc").expect("a launch");
    assert_eq!(own.program, "sh");
    assert_eq!(
        own.arguments,
        vec![
            "-c",
            "systemd-run --wait --pipe --user --machine deck@ -- systemd-run --user --scope kcalc"
        ]
    );
    assert!(!own.detached);
    assert_eq!(launch(&None, &None, "kcalc"), None);
}

#[test]
fn the_control_socket_takes_two_words() {
    assert_eq!(control_command("pause\n"), Some(true));
    assert_eq!(control_command("  resume "), Some(false));
    assert_eq!(control_command("stop"), None);
    assert_eq!(control_word("pause "), None);
}

#[test]
fn the_stack_is_named_from_the_base_up() {
    assert_eq!(config_stack("Deck", "Deck"), vec!["Deck"]);
    assert_eq!(config_stack("Deck::firefox", "Deck"), vec!["Deck", "firefox"]);
    assert_eq!(config_stack("firefox", "Deck"), vec!["Deck", "firefox"]);
}

#[test]
fn held_keys_are_let_go() {
    let held = vec![Event::Key(Key(29)), Event::Axis(Axis::ABS_Z), Event::Key(Key(42)), Event::Hold];
    assert_eq!(
        release_held_modifiers(&held),
        vec![
            RawEvent { kind: EV_KEY, code: 29, value: 0 },
            RawEvent { kind: EV_KEY, code: 42, value: 0 },
        ]
    );
}

#[test]
fn blanks_round_a_word_are_those_of_unicode() {
    for n in 0..=0xffffu32 {
        if let Some(c) = char::from_u32(n) {
            let line = format!("{c}pause{c}");
            assert_eq!(control_command(&line).is_some(), c.is_whitespace(), "{n:#x}");
        }
    }
    assert_eq!(control_command("\u{3000}pause\u{a0}\u{85}"), Some(true));
    assert_eq!(control_command("\u{200b}pause"), None);
}

#[test]
fn two_quick_presses_switch_gaming_mode() {
    let trigger = Some(DoubleclickTrigger { key: Key(0x126), ms: 400 });
    let event = |value| RawEvent { kind: EV_KEY, code: 0x126, value };
    let mut run = TriggerRun::new();
    assert!(!run.take(&trigger, event(1), 1_000_000));
    assert!(!run.take(&trigger, event(0), 1_100_000));
    assert!(!run.take(&trigger, RawEvent { kind: EV_KEY, code: 0x127, value: 1 }, 1_150_000));
    assert!(!run.take(&None, event(1), 1_200_000));
    assert!(run.take(&trigger, event(1), 1_400_999));
    assert!(!run.take(&trigger, event(1), 1_500_000));
    assert!(!run.take(&trigger, event(1), 1_901_000));
    assert!(run.take(&trigger, event(1), 1_901_000));
    assert!(!run.take(&trigger, event(1), 2_000_000));
    assert!(!run.take(&trigger, event(1), 1_999_999));
}
