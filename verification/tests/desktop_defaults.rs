use deckery::desktop_defaults::{
    default_natural_scroll_true, ensure_kde_input_defaults, kcminputrc_path, lines,
    remove_deckery_sections, write_gesture_section, write_pad_section, AccelerationProfile,
    GestureKdeConfig, PadKdeConfig,
};

fn pad(speed: &str) -> PadKdeConfig {
    PadKdeConfig {
        tap_to_click: false,
        disable_while_typing: true,
        pointer_acceleration: speed.to_string(),
        pointer_acceleration_profile: AccelerationProfile::Flat,
        natural_scroll: false,
    }
}

fn gesture() -> GestureKdeConfig {
    GestureKdeConfig {
        tap_to_click: false,
        disable_while_typing: false,
        natural_scroll: true,
        scroll_factor: "0.3".to_string(),
        pointer_acceleration_profile: AccelerationProfile::Adaptive,
    }
}

#[test]
fn a_pad_is_a_section() {
    assert_eq!(
        write_pad_section("x", 10, 20, "Pad", &pad("0.200")),
        "x\n[Libinput][10][20][Pad]\nDisableWhileTyping=true\nNaturalScroll=false\nPointerAcceleration=0.200\nPointerAccelerationProfile=2\nTapToClick=false\n"
    );
}

#[test]
fn gestures_are_a_section() {
    assert_eq!(
        write_gesture_section("", 10, 20, &gesture()),
        "\n[Libinput][10][20][Deckery Combined Trackpad]\nDisableWhileTyping=false\nNaturalScroll=true\nPointerAccelerationProfile=1\nScrollFactor=0.3\nTapToClick=false\n"
    );
}

#[test]
fn only_own_sections_are_removed() {
    let content = "[Mouse]\nspeed=1\n\n[Libinput][10][20][Deckery Left Trackpad]\nTapToClick=true\n[Libinput][1][2][Other]\nTapToClick=false\n\n";
    assert_eq!(
        remove_deckery_sections(content, 10, 20),
        "[Mouse]\nspeed=1\n\n[Libinput][1][2][Other]\nTapToClick=false"
    );
}

#[test]
fn writing_again_replaces() {
    let content = "[Mouse]\nspeed=1\n";
    let once = ensure_kde_input_defaults(content, 10, 20, &pad("0.100"), &pad("0.100"), &gesture());
    let twice = ensure_kde_input_defaults(&once, 10, 20, &pad("0.900"), &pad("0.800"), &gesture());
    assert!(once.starts_with("[Mouse]\nspeed=1\n[Libinput][10][20][Deckery Left Trackpad]\n"));
    assert_eq!(
        twice,
        ensure_kde_input_defaults(content, 10, 20, &pad("0.900"), &pad("0.800"), &gesture())
    );
    assert!(!twice.contains("0.100"));
    assert!(twice.ends_with("TapToClick=false\n\n"));
}

#[test]
fn lines_end_with_feeds() {
    assert_eq!(lines("a\r\nb\n\nc"), vec!["a", "b", "", "c"]);
    assert_eq!(lines("a\n"), vec!["a"]);
    assert_eq!(lines(""), Vec::<String>::new());
}

#[test]
fn the_file_lies_in_the_configuration_directory() {
    let some = |s: &str| Some(s.to_string());
    assert_eq!(kcminputrc_path(&some("/cfg"), &some("/home/a")), some("/cfg/kcminputrc"));
    assert_eq!(kcminputrc_path(&some(""), &some("/home/a")), some("/home/a/.config/kcminputrc"));
    assert_eq!(kcminputrc_path(&None, &some("/home/a")), some("/home/a/.config/kcminputrc"));
    assert_eq!(kcminputrc_path(&None, &None), None);
}

#[test]
fn profiles_have_numbers() {
    assert_eq!(AccelerationProfile::default().kde_value(), 2);
    assert_eq!(AccelerationProfile::Adaptive.kde_value(), 1);
    assert!(default_natural_scroll_true());
}

#[test]
fn removing_again_changes_nothing() {
    let content = "\n[Mouse]\nspeed=1\n\n[Libinput][10][20][Deckery Left Trackpad]\nTapToClick=true\n\n[Libinput][1][2][Other]\n\n\n[Libinput][10][20][Deckery Right Trackpad]\nTapToClick=true\n";
    let once = remove_deckery_sections(content, 10, 20);
    assert_eq!(once, "\n[Mouse]\nspeed=1\n\n[Libinput][1][2][Other]");
    assert_eq!(remove_deckery_sections(&once, 10, 20), once);
    assert_eq!(remove_deckery_sections("\n\n", 10, 20), "");
    assert_eq!(remove_deckery_sections("", 10, 20), "");
}
