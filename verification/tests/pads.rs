use deckery::haptics::PadFrame;
use deckery::pads::{frame_for_desktop, is_touching, route, CombinedPadFrame, GestureEvent};

// --- is_touching ---

#[test]
fn is_touching_both_zero_is_false() {
    assert!(!is_touching(0, 0));
}

#[test]
fn is_touching_nonzero_x() {
    assert!(is_touching(100, 0));
}

#[test]
fn is_touching_nonzero_y() {
    assert!(is_touching(0, -500));
}

#[test]
fn is_touching_both_nonzero() {
    assert!(is_touching(1234, -5678));
}

// --- route ---

fn touched(ltouch: bool, rtouch: bool) -> PadFrame {
    PadFrame { lx: 1, ly: 2, ltouch, lclick: true, rx: 3, ry: 4, rtouch, rclick: false }
}

fn combined(ltouch: bool, rtouch: bool) -> CombinedPadFrame {
    CombinedPadFrame { lx: 1, ly: 2, ltouch, lclick: true, rx: 3, ry: 4, rtouch, rclick: false }
}

#[test]
fn a_gesture_begins_when_both_pads_are_touched() {
    assert_eq!(route(false, true, touched(true, false)), (false, None, true, false));
    assert_eq!(
        route(false, true, touched(true, true)),
        (true, Some(GestureEvent::Start(combined(true, true))), false, false)
    );
}

#[test]
fn a_gesture_lasts_until_both_fingers_are_lifted() {
    assert_eq!(
        route(true, true, touched(false, true)),
        (true, Some(GestureEvent::Move(combined(false, true))), false, false)
    );
    assert_eq!(
        route(true, true, touched(true, true)),
        (true, Some(GestureEvent::Move(combined(true, true))), false, false)
    );
    assert_eq!(
        route(true, true, touched(false, false)),
        (false, Some(GestureEvent::End), false, false)
    );
}

#[test]
fn without_a_gesture_device_the_pads_are_on_their_own() {
    assert_eq!(route(false, false, touched(true, true)), (false, None, true, true));
    assert_eq!(route(false, false, touched(false, true)), (false, None, false, true));
}

#[test]
fn a_game_has_the_pads_to_itself() {
    assert_eq!(frame_for_desktop(false, touched(true, true)), touched(true, true));
    assert_eq!(frame_for_desktop(true, touched(true, true)), PadFrame::default());
}
