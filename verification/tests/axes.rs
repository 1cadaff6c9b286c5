use deckery::axes::{
    get_axis_value, max_abs_wheel, AxisState, DeviceFacts, RawEvent, Step, ABS_HAT0X, ABS_MISC,
    ABS_RZ, ABS_WHEEL, ABS_X, ABS_Z, EV_ABS, EV_KEY, EV_MSC, EV_REL, REL_WHEEL,
};
use deckery::event::{Axis, Event, Key};
use deckery::keyed::KeyedList;
use deckery::settings::Settings;

fn settings(lines: &[(&str, &str)]) -> Settings {
    let mut table = KeyedList::new();
    for (name, value) in lines {
        table.insert(name.to_string(), value.to_string());
    }
    Settings::read(&table, &KeyedList::new()).expect("readable settings")
}

fn plain() -> DeviceFacts {
    DeviceFacts { is_tablet: false, max_abs_wheel: 70 }
}

fn abs(code: u16, value: i32) -> RawEvent {
    RawEvent { kind: EV_ABS, code, value }
}

fn press(a: Axis) -> Step {
    Step::Convert { event: Event::Axis(a), value: 1, send_zero: false }
}

fn release(a: Axis) -> Step {
    Step::Convert { event: Event::Axis(a), value: 0, send_zero: false }
}

fn notch(a: Axis) -> Step {
    Step::Convert { event: Event::Axis(a), value: 1, send_zero: true }
}

#[test]
fn tilt_is_zero_in_the_dead_zone_and_steps_beyond() {
    assert_eq!(get_axis_value(128, 5, false), 0);
    assert_eq!(get_axis_value(133, 5, false), 0);
    assert_eq!(get_axis_value(134, 5, false), 1);
    assert_eq!(get_axis_value(255, 5, false), 13);
    assert_eq!(get_axis_value(0, 5, false), -11);
    assert_eq!(get_axis_value(1000, 5, true), 0);
    assert_eq!(get_axis_value(1001, 5, true), 1);
    assert_eq!(get_axis_value(-32768, 5, true), -15);
}

#[test]
fn a_hat_releases_what_it_pressed() {
    let s = settings(&[]);
    let mut a = AxisState::new();
    assert_eq!(a.step(&plain(), &s, abs(ABS_HAT0X, -1)), press(Axis::BTN_DPAD_LEFT));
    assert_eq!(a.dpad, (-1, 0));
    assert_eq!(a.step(&plain(), &s, abs(ABS_HAT0X, 0)), release(Axis::BTN_DPAD_LEFT));
    assert_eq!(a.step(&plain(), &s, abs(ABS_HAT0X, 0)), Step::Nothing);
    assert_eq!(a.step(&plain(), &s, abs(ABS_HAT0X, 1)), press(Axis::BTN_DPAD_RIGHT));
    assert_eq!(a.step(&plain(), &s, abs(ABS_HAT0X, 7)), Step::Nothing);
    assert_eq!(a.step(&plain(), &s, abs(ABS_HAT0X, 0)), release(Axis::BTN_DPAD_RIGHT));
}

#[test]
fn a_trigger_presses_once_and_does_not_disturb_the_other() {
    let s = settings(&[]);
    let mut a = AxisState::new();
    assert_eq!(a.step(&plain(), &s, abs(ABS_Z, 10)), press(Axis::ABS_Z));
    assert_eq!(a.step(&plain(), &s, abs(ABS_Z, 200)), Step::Nothing);
    assert_eq!(a.step(&plain(), &s, abs(ABS_RZ, 9)), press(Axis::ABS_RZ));
    assert_eq!(a.step(&plain(), &s, abs(ABS_Z, 0)), release(Axis::ABS_Z));
    assert_eq!(a.triggers, (0, 1));
}

#[test]
fn a_bound_stick_acts_like_buttons() {
    let s = settings(&[("LSTICK", "bind")]);
    let mut a = AxisState::new();
    assert_eq!(a.step(&plain(), &s, abs(ABS_X, 255)), press(Axis::LSTICK_RIGHT));
    assert_eq!(a.step(&plain(), &s, abs(ABS_X, 250)), Step::Nothing);
    assert_eq!(a.step(&plain(), &s, abs(ABS_X, 0)), press(Axis::LSTICK_LEFT));
    assert_eq!(a.step(&plain(), &s, abs(ABS_X, 128)), release(Axis::LSTICK_LEFT));
    assert_eq!(a.lstick_position, (0, 0));
}

#[test]
fn a_moving_stick_keeps_its_position() {
    let s = settings(&[("LSTICK", "cursor")]);
    let mut a = AxisState::new();
    assert_eq!(a.step(&plain(), &s, abs(ABS_X, 255)), Step::Nothing);
    assert_eq!(a.lstick_position, (13, 0));
    assert_eq!(a.lstick, (0, 0));
}

#[test]
fn wheels_turn_in_notches() {
    let s = settings(&[]);
    let mut a = AxisState::new();
    let wheel = |value| RawEvent { kind: EV_REL, code: REL_WHEEL, value };
    assert_eq!(a.step(&plain(), &s, wheel(120)), notch(Axis::SCROLL_WHEEL_UP));
    assert_eq!(a.step(&plain(), &s, wheel(-120)), notch(Axis::SCROLL_WHEEL_DOWN));
    assert_eq!(a.step(&plain(), &s, wheel(15)), Step::Nothing);
    assert_eq!(a.step(&plain(), &s, abs(ABS_WHEEL, 60)), Step::Nothing);
    assert_eq!(a.step(&plain(), &s, abs(ABS_WHEEL, 61)), notch(Axis::ABS_WHEEL_CW));
    assert_eq!(a.step(&plain(), &s, abs(ABS_WHEEL, 2)), notch(Axis::ABS_WHEEL_CW));
    assert_eq!(a.step(&plain(), &s, abs(ABS_WHEEL, 60)), notch(Axis::ABS_WHEEL_CCW));
    assert_eq!(a.step(&plain(), &s, abs(ABS_MISC, 0)), Step::Nothing);
    assert_eq!(a.abs_wheel, 0);
    assert_eq!(max_abs_wheel(&vec![3, 71, 9]), 71);
}

#[test]
fn a_pen_is_gathered_and_handed_on_as_a_whole() {
    let s = settings(&[]);
    let facts = DeviceFacts { is_tablet: true, max_abs_wheel: 0 };
    let mut a = AxisState::new();
    let tool = RawEvent { kind: EV_KEY, code: 0x140, value: 1 };
    assert_eq!(a.step(&facts, &s, tool), Step::Nothing);
    assert_eq!(a.step(&facts, &s, abs(ABS_X, 77)), Step::Nothing);
    let end = RawEvent { kind: EV_MSC, code: 0, value: 0 };
    match a.step(&facts, &s, end) {
        Step::Pen { events } => assert_eq!(events[..2], [tool, abs(ABS_X, 77)]),
        other => panic!("{:?}", other),
    }
    assert!(a.pen_events.is_empty());
}

#[test]
fn keys_are_handed_on_with_their_values() {
    let s = settings(&[]);
    let mut a = AxisState::new();
    for value in [0, 1, 2] {
        assert_eq!(
            a.step(&plain(), &s, RawEvent { kind: EV_KEY, code: 0x130, value }),
            Step::Convert { event: Event::Key(Key(0x130)), value, send_zero: false }
        );
    }
}

#[test]
fn every_press_looks_the_configuration_up() {
    assert!(press(Axis::LSTICK_UP).looks_up_config());
    assert!(!release(Axis::LSTICK_UP).looks_up_config());
    let repeat = Step::Convert { event: Event::Key(Key(304)), value: 2, send_zero: false };
    assert!(!repeat.looks_up_config());
    assert!(!Step::Nothing.looks_up_config());
    assert!(!Step::Default.looks_up_config());
    assert!(!Step::Pen { events: Vec::new() }.looks_up_config());
}
