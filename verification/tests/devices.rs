use deckery::config::{Config, DeviceClass, DeviceDeclaration};
use deckery::controller::{
    canonical_device_name, find_controller_hidraw_for_evdev, find_hidraw_for_evdev,
    is_known_device_name, HidrawCandidate, SteamDeckController,
};
use deckery::devices::{
    after_attempt, detects_games, device_facts, device_plan, find_device, has_device_access,
    without_slashes, AppLifecycle, Claim, GrabAttempt, GrabListener, GrabNext, Scan, StateCommand,
    YieldEvent,
};

fn declared(names: &[&str]) -> DeviceDeclaration {
    DeviceDeclaration {
        class: DeviceClass::HidSteam,
        names: names.iter().map(|n| n.to_string()).collect(),
    }
}

fn texts(names: &[&str]) -> Vec<String> {
    names.iter().map(|n| n.to_string()).collect()
}

fn candidate(name: &str, interface: &str, usb: &str, has_input: bool) -> HidrawCandidate {
    HidrawCandidate {
        name: name.to_string(),
        interface: Some(interface.to_string()),
        usb_device: Some(usb.to_string()),
        has_input,
    }
}

// ── Finding ───────────────────────────────────────────────────────────────────

#[test]
fn find_hidraw_returns_none_for_nonexistent_evdev() {
    assert_eq!(find_controller_hidraw_for_evdev(&vec![], "/sys/devices/usb1"), None);
    assert_eq!(find_hidraw_for_evdev(&vec![], "/sys/devices/usb1/1:0"), None);
}

#[test]
fn steam_deck_controller_from_nonexistent_evdev_has_no_hidraw() {
    let ctrl = SteamDeckController::from_evdev("/dev/input/event99999", &None, &vec![]);
    assert_eq!(ctrl.evdev_path, "/dev/input/event99999");
    assert!(ctrl.hidraw_path.is_none());
}

#[test]
fn find_does_not_panic() {
    assert_eq!(SteamDeckController::find(&vec![]), None);
    assert_eq!(
        SteamDeckController::find(&texts(&["AT Keyboard", "Valve Software Steam Controller"])),
        Some(1)
    );
}

#[test]
fn the_sibling_that_is_no_keyboard_is_the_controller() {
    let all = vec![
        candidate("hidraw3", "/i2", "/usb", false),
        candidate("hidraw1", "/i0", "/usb", true),
        candidate("hidraw2", "/i1", "/usb", false),
        candidate("hidraw0", "/i3", "/other", false),
    ];
    assert_eq!(find_controller_hidraw_for_evdev(&all, "/usb"), Some("/dev/hidraw2".to_string()));
    assert_eq!(find_hidraw_for_evdev(&all, "/i0"), Some("/dev/hidraw1".to_string()));
    let ctrl = SteamDeckController::from_evdev("/dev/input/event5", &Some("/usb".to_string()), &all);
    assert_eq!(ctrl.hidraw_path.as_deref(), Some("/dev/hidraw2"));
}

#[test]
fn names_of_the_controller_are_known() {
    assert_eq!(canonical_device_name("Valve Software Steam Controller"), Some("Steam Deck"));
    assert_eq!(canonical_device_name("Steam Deck"), Some("Steam Deck"));
    assert_eq!(canonical_device_name("Xbox Controller"), None);
    assert!(is_known_device_name("Steam Deck Motion Sensors"));
}

#[test]
fn the_first_declared_device_is_found() {
    let names = texts(&["AT Keyboard", "Pad/One", "PadTwo"]);
    assert_eq!(without_slashes("Pad/One/"), "PadOne");
    assert_eq!(find_device(&declared(&["PadTwo", "PadOne"]), &names), Some(1));
    assert_eq!(find_device(&declared(&["Mouse"]), &names), None);
}

#[test]
fn a_base_configuration_says_how_its_device_is_started() {
    let names = texts(&["Steam Deck"]);
    let mut c = Config::new_empty("deck".to_string());
    assert!(device_plan(&c, &names).is_none(), "a module has no device");
    c.device = Some(declared(&["Steam Deck"]));
    c.settings.insert("GRAB_DEVICE".to_string(), "true".to_string());
    let plan = device_plan(&c, &names).expect("a plan");
    assert_eq!(plan.device, 0);
    assert!(plan.hid_steam);
    assert!(plan.grab);
    assert!(plan.lizard_mode.expect("a suppression").is_any());
    c.settings.insert("SUPPRESS_LIZARD_MODE".to_string(), "none".to_string());
    assert!(!device_plan(&c, &names).expect("a plan").lizard_mode.is_some_and(|m| m.is_any()));
}

#[test]
fn only_other_devices_have_pens_and_wheels() {
    let tablet = device_facts(false, true, Some(71));
    assert!(tablet.is_tablet);
    assert_eq!(tablet.max_abs_wheel, 71);
    let controller = device_facts(true, true, Some(71));
    assert!(!controller.is_tablet);
    assert_eq!(controller.max_abs_wheel, 0);
    assert_eq!(device_facts(false, false, None).max_abs_wheel, 0);
}

// ── Claims ────────────────────────────────────────────────────────────────────

#[test]
fn a_controller_is_started_once() {
    let mut scan = Scan::new();
    let raw = Some("/dev/hidraw2".to_string());
    assert_eq!(scan.claim(&raw), Claim::Start);
    assert_eq!(scan.claim(&raw), Claim::Duplicate);
    assert_eq!(scan.claim(&None), Claim::NoSibling);
    assert_eq!(scan.claim(&Some("/dev/hidraw3".to_string())), Claim::Start);
}

#[test]
fn a_scan_without_a_reader_is_an_error() {
    let mut scan = Scan::new();
    let error = |message: &str| StateCommand::SetError {
        id: "no_device".to_string(),
        message: message.to_string(),
        severity: "error",
    };
    let ready = StateCommand::SetLifecycle(AppLifecycle::Ready);
    assert_eq!(
        scan.closing(false),
        vec![
            ready.clone(),
            error("No matching device found — user may lack event device access")
        ]
    );
    assert_eq!(
        scan.closing(true),
        vec![
            ready.clone(),
            error("No matching device found — check that [device] names in the base config matches the evdev device name from 'evtest'")
        ]
    );
    scan.started();
    let clear = StateCommand::ClearError { id: "no_device".to_string() };
    assert_eq!(scan.closing(true), vec![ready.clone(), clear.clone()]);
    assert_eq!(scan.closing(false), vec![ready, clear]);
}

#[test]
fn no_config_files_sends_lifecycle_ready_and_no_device_error() {
    let commands = Scan::new().closing(true);
    let has_lifecycle_ready = commands
        .iter()
        .any(|cmd| matches!(cmd, StateCommand::SetLifecycle(AppLifecycle::Ready)));
    let has_no_device_error = commands
        .iter()
        .any(|cmd| matches!(cmd, StateCommand::SetError { id, .. } if id == "no_device"));
    assert!(has_lifecycle_ready, "expected SetLifecycle(Ready) but got: {:?}", commands);
    assert!(has_no_device_error, "expected SetError(no_device) but got: {:?}", commands);
}

#[test]
fn access_comes_with_two_groups() {
    let groups = |g: &str| Some(g.to_string());
    assert!(has_device_access(&groups("wheel input video")));
    assert!(has_device_access(&groups("root")));
    assert!(!has_device_access(&groups("wheel video")));
    assert!(!has_device_access(&None));
}

#[test]
fn games_are_looked_for_unless_the_base_says_no() {
    assert!(detects_games(&vec![]));
    let mut c = Config::new_empty("deck".to_string());
    c.gaming_mode_config.auto_detect_steam_games = false;
    assert!(!detects_games(&vec![c]));
}

// ── Sharing ───────────────────────────────────────────────────────────────────

#[test]
fn only_a_busy_device_is_tried_again() {
    assert_eq!(after_attempt(GrabAttempt::Taken, 4900), GrabNext::Done);
    assert_eq!(after_attempt(GrabAttempt::Busy, 4999), GrabNext::Retry(100));
    assert_eq!(after_attempt(GrabAttempt::Busy, 5000), GrabNext::TimedOut);
    assert_eq!(after_attempt(GrabAttempt::Failed, 0), GrabNext::GiveUp);
}

#[test]
fn regrab_grab_pending_does_not_trigger_spurious_release() {
    let path = "/dev/input/event5";
    let mut l = GrabListener::new(path.to_string(), true);
    let wish = l.hear("GrabPending", path);
    assert!(wish.release_all);
    assert_eq!(wish.tell, Some(YieldEvent::Release));
    let again = l.hear("GrabReleased", path);
    assert!(again.announce);
    assert_eq!(again.tell, Some(YieldEvent::Regrab));
    let own = l.hear("GrabPending", path);
    assert!(!own.release_all);
    assert_eq!(own.tell, None);
    assert!(l.hear("GrabPending", path).release_all);
}

#[test]
fn other_devices_and_signals_do_not_matter() {
    let mut l = GrabListener::new("/dev/input/event5".to_string(), false);
    assert!(!l.hear("GrabPending", "/dev/input/event6").release_all);
    assert!(!l.hear("GrabReleased", "/dev/input/event5").announce, "nothing is held here");
    assert_eq!(l.hear("GrabPending", "/dev/input/event5").tell, None);
}
