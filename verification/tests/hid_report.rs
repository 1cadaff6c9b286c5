use deckery::axes::{EV_ABS, EV_KEY};
use deckery::controller::{
    click_pressure_of, synthesise_input_events, ClickPressureConfig, EV_SYN,
};
use evdev::{AbsoluteAxisType, Key};


fn zero_buf() -> [u8; 64] { [0u8; 64] }

/// Build a buf with a single button pressed (byte, bit).
fn btn_buf(byte: usize, mask: u8) -> [u8; 64] {
    let mut buf = zero_buf();
    buf[byte] = mask;
    buf
}

/// Build a buf with an i16 axis value at the given byte offset.
fn axis_buf(offset: usize, val: i16) -> [u8; 64] {
    let mut buf = zero_buf();
    buf[offset..offset + 2].copy_from_slice(&val.to_le_bytes());
    buf
}

#[test]
fn synthesise_emits_nothing_when_buffer_unchanged() {
    let buf = zero_buf();
    let events = synthesise_input_events(&buf, &buf);
    assert!(events.is_empty(), "no events expected when buffer is identical");
}

#[test]
fn synthesise_emits_btn_south_on_a_press() {
    let prev = zero_buf();
    let curr = btn_buf(8, 1 << 7); // BTN_SOUTH / A, byte 8, bit 7
    let events = synthesise_input_events(&curr, &prev);
    // Expect at least one KEY event with value 1, plus SYN_REPORT.
    let key_ev = events.iter().find(|e| {
        e.kind == EV_KEY
            && e.code == Key::BTN_SOUTH.code()
            && e.value == 1
    });
    assert!(key_ev.is_some(), "expected BTN_SOUTH press event, got: {:?}", events);
    assert!(
        events.last().map(|e| e.kind == EV_SYN).unwrap_or(false),
        "last event must be SYN_REPORT"
    );
}

#[test]
fn synthesise_emits_btn_release_on_transition_1_to_0() {
    let prev = btn_buf(8, 1 << 7); // A pressed
    let curr = zero_buf();          // A released
    let events = synthesise_input_events(&curr, &prev);
    let key_ev = events.iter().find(|e| {
        e.kind == EV_KEY
            && e.code == Key::BTN_SOUTH.code()
            && e.value == 0
    });
    assert!(key_ev.is_some(), "expected BTN_SOUTH release event, got: {:?}", events);
}

#[test]
fn synthesise_emits_abs_x_on_left_stick_move() {
    let prev = zero_buf();
    let curr = axis_buf(48, 10_000i16); // ABS_X = left stick X, offset 48
    let events = synthesise_input_events(&curr, &prev);
    let abs_ev = events.iter().find(|e| {
        e.kind == EV_ABS
            && e.code == AbsoluteAxisType::ABS_X.0
            && e.value == 10_000
    });
    assert!(abs_ev.is_some(), "expected ABS_X = 10000, got: {:?}", events);
}

#[test]
fn synthesise_negates_abs_y_for_left_stick() {
    // ABS_Y (left stick Y, offset 50) has negate=true: raw +5000 → reported -5000.
    let prev = zero_buf();
    let curr = axis_buf(50, 5_000i16);
    let events = synthesise_input_events(&curr, &prev);
    let abs_ev = events.iter().find(|e| {
        e.kind == EV_ABS
            && e.code == AbsoluteAxisType::ABS_Y.0
    });
    assert!(
        abs_ev.is_some() && abs_ev.unwrap().value == -5_000,
        "expected ABS_Y = -5000 (negated), got: {:?}", events
    );
}

#[test]
fn synthesise_does_not_negate_trigger_axes() {
    // ABS_HAT2Y (left trigger, offset 44) has negate=false.
    let prev = zero_buf();
    let curr = axis_buf(44, 20_000i16);
    let events = synthesise_input_events(&curr, &prev);
    let abs_ev = events.iter().find(|e| {
        e.kind == EV_ABS
            && e.code == AbsoluteAxisType::ABS_HAT2Y.0
    });
    assert!(
        abs_ev.is_some() && abs_ev.unwrap().value == 20_000,
        "expected ABS_HAT2Y = 20000 (not negated), got: {:?}", events
    );
}

#[test]
fn synthesise_emits_only_changed_fields() {
    // Change only ABS_RX (right stick X, offset 52). Nothing else should appear.
    let prev = zero_buf();
    let mut curr = zero_buf();
    curr[52..54].copy_from_slice(&(-3000i16).to_le_bytes());
    let events = synthesise_input_events(&curr, &prev);
    // Only ABS_RX + SYN_REPORT expected.
    let non_syn: Vec<_> = events.iter()
        .filter(|e| e.kind != EV_SYN)
        .collect();
    assert_eq!(non_syn.len(), 1, "expected exactly one non-SYN event, got: {:?}", events);
    assert_eq!(non_syn[0].code, AbsoluteAxisType::ABS_RX.0);
    assert_eq!(non_syn[0].value, -3000);
}

#[test]
fn synthesise_multiple_buttons_in_one_report() {
    // Press BTN_SOUTH (byte 8, bit 7) and BTN_DPAD_UP (byte 9, bit 0) simultaneously.
    let prev = zero_buf();
    let mut curr = zero_buf();
    curr[8] = 1 << 7;
    curr[9] = 1 << 0;
    let events = synthesise_input_events(&curr, &prev);
    let south = events.iter().any(|e| e.kind == EV_KEY && e.code == Key::BTN_SOUTH.code() && e.value == 1);
    let dpad  = events.iter().any(|e| e.kind == EV_KEY && e.code == Key::BTN_DPAD_UP.code() && e.value == 1);
    assert!(south, "BTN_SOUTH missing from: {:?}", events);
    assert!(dpad,  "BTN_DPAD_UP missing from: {:?}", events);
}

#[test]
fn click_pressure_needs_both_sides() {
    assert_eq!(
        click_pressure_of(Some(300), Some(400)),
        Some(ClickPressureConfig { left: 300, right: 400 })
    );
    assert_eq!(click_pressure_of(Some(300), None), None);
    assert_eq!(click_pressure_of(None, Some(400)), None);
    assert_eq!(click_pressure_of(None, None), None);
}
