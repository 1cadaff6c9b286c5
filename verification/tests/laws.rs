use deckery::config::{
    Config, DeviceClass, DeviceDeclaration, MappedModifiers, TextTable, TrackpadConfig,
};
use deckery::conflicts::{gates_overlap, report_binding_conflicts, report_device_conflicts};
use deckery::event::{canonical_list, Combo, Event, Key};
use deckery::haptics::{build_haptic_report, HapticChain, HapticCommand, HapticPad, HapticPulse};
use deckery::layers::ConfigEntry;
use deckery::pads::{
    default_move_pixel_interval, default_movement_pixel_interval, frame_ways, trackpad_plan,
    ClickEdge, CombinedPadFrame, GestureEvent, GestureMoveHaptic, GesturePadConfig, GestureRun,
    MovementHaptic, MtTrackpadConfig, PadRun, SinglePadFrame,
};
use deckery::parse::{
    parse_binding_input, parse_raw_config, RawConfig, RawModuleIncludes, RawModuleMetadata,
    RawTrackpadConfig, RemapValue,
};
use deckery::registry::{read_entry, ConfigRegistry};
use deckery::resolver::{resolve_binding, ResolvedBinding};
use deckery::session::Client;

fn code(k: evdev::Key) -> Key {
    Key(k.code())
}

fn button(k: evdev::Key) -> Event {
    Event::Key(code(k))
}

fn module(name: &str, trigger: evdev::Key, output: evdev::Key) -> Config {
    let mut c = Config::new_empty(name.to_string());
    c.bindings.remap.insert(Combo::plain(button(trigger)), vec![code(output)]);
    c
}

fn entry(config: Config) -> ConfigEntry {
    read_entry(config.name.clone(), false, Ok(config))
}

fn deck(name: &str) -> Config {
    let mut c = Config::new_empty(name.to_string());
    c.device = Some(DeviceDeclaration {
        class: DeviceClass::HidSteam,
        names: vec!["Steam Deck".to_string()],
    });
    c
}

// ── Bindings ──────────────────────────────────────────────────────────────────

#[test]
fn the_order_of_modifiers_does_not_matter() {
    let (tl, tr) = (button(evdev::Key::BTN_TL), button(evdev::Key::BTN_TR));
    let south = button(evdev::Key::BTN_SOUTH);
    let mut c = Config::new_empty("test".to_string());
    let held = canonical_list(&vec![tr, tl, tr]);
    assert_eq!(held, canonical_list(&vec![tl, tr]));
    c.bindings.remap.insert(Combo::new(south, held), vec![code(evdev::Key::KEY_A)]);
    for order in [vec![tl, tr], vec![tr, tl]] {
        match resolve_binding(&c.bindings, south, &canonical_list(&order), true) {
            ResolvedBinding::Keys { keys, .. } => assert_eq!(keys, vec![code(evdev::Key::KEY_A)]),
            other => panic!("{:?}", other),
        }
    }
}

#[test]
fn all_modifiers_survive_a_merge() {
    let mut app = Config::new_empty("app".to_string());
    app.mapped_modifiers.custom = vec![button(evdev::Key::BTN_TR)];
    let mut base = Config::new_empty("base".to_string());
    base.mapped_modifiers.custom = vec![button(evdev::Key::BTN_TL)];
    app.merge_base(&base);
    let both = vec![button(evdev::Key::BTN_TL), button(evdev::Key::BTN_TR)];
    assert!(both.iter().all(|m| app.mapped_modifiers.all.contains(m)));
}

#[test]
fn an_own_setting_stands() {
    let mut app = Config::new_empty("app".to_string());
    app.settings.insert("STADIA".to_string(), "true".to_string());
    let mut base = Config::new_empty("base".to_string());
    base.settings.insert("STADIA".to_string(), "false".to_string());
    base.settings.insert("CHAIN_ONLY".to_string(), "false".to_string());
    app.merge_base(&base);
    assert_eq!(app.settings.get(&"STADIA".to_string()).map(String::as_str), Some("true"));
    assert_eq!(app.settings.get(&"CHAIN_ONLY".to_string()).map(String::as_str), Some("false"));
}

fn raw(remap: &[(&str, evdev::Key)], hints: &[(&str, &str)]) -> RawConfig {
    let mut table = TextTable::new();
    for (shortcut, label) in hints {
        table.insert(shortcut.to_string(), label.to_string());
    }
    RawConfig {
        remap: remap
            .iter()
            .map(|(i, k)| (i.to_string(), RemapValue::Simple(vec![code(*k)])))
            .collect(),
        commands: Vec::new(),
        movements: Vec::new(),
        hints: table,
        settings: TextTable::new(),
        trackpad: RawTrackpadConfig::default(),
        gaming_mode: None,
        device: None,
        module: RawModuleMetadata::default(),
        modules: RawModuleIncludes::default(),
    }
}

#[test]
fn hints_bind_nothing() {
    let lines = [("BTN_TL-BTN_SOUTH", evdev::Key::KEY_A)];
    let (plain, _, mods) = parse_raw_config(&raw(&lines, &[]), &TextTable::new());
    let (hinted, _, same) =
        parse_raw_config(&raw(&lines, &[("KEY_A", "Select")]), &TextTable::new());
    assert_eq!(plain.remap, hinted.remap);
    assert_eq!(plain.commands, hinted.commands);
    assert_eq!(mods, same);
    assert_eq!(hinted.hints.len(), 1);
}

#[test]
fn an_unknown_modifier_drops_the_line() {
    let lines = [("BTN_TYPO-BTN_SOUTH", evdev::Key::KEY_A)];
    let (bindings, _, mods) = parse_raw_config(&raw(&lines, &[]), &TextTable::new());
    assert!(bindings.remap.is_empty());
    assert!(mods.custom.is_empty());
    let mut mapped = MappedModifiers::default();
    let (trigger, _) = parse_binding_input("BTN_TYPO-BTN_SOUTH", &mut mapped, &TextTable::new());
    assert!(trigger.is_none());
    assert!(mapped.custom.is_empty());
}

// ── Hints ─────────────────────────────────────────────────────────────────────

#[test]
fn hints_that_cannot_be_shown_are_named_in_quotes() {
    let mut c = module("test", evdev::Key::BTN_SOUTH, evdev::Key::KEY_A);
    c.bindings.hints.insert("KEY_B".to_string(), "Bold".to_string());
    c.bindings.hints.insert("KEY_\"".to_string(), "Quote".to_string());
    let mut warnings = c.resolve_hints();
    warnings.sort();
    assert_eq!(
        warnings,
        vec![
            "hint \"KEY_B\": no button emits \"KEY_B\" — hint can never be shown",
            "hint \"KEY_\\\"\": \"KEY_\\\"\" is not a known key — hint can never be shown",
        ]
    );
}

#[test]
fn resolving_hints_again_changes_nothing_and_covers_nothing() {
    let mut c = module("test", evdev::Key::BTN_SOUTH, evdev::Key::KEY_A);
    c.bindings.hints.insert("KEY_A".to_string(), "Select".to_string());
    let before = c.bindings.remap.clone();
    c.resolve_hints();
    let once = c.bindings.hints_resolved.clone();
    c.resolve_hints();
    assert_eq!(c.bindings.hints_resolved, once);
    assert_eq!(c.bindings.remap, before);
}

// ── Conflicts ─────────────────────────────────────────────────────────────────

#[test]
fn a_conflict_is_told_in_full() {
    let mut entries = vec![
        entry(module("aaa", evdev::Key::BTN_SOUTH, evdev::Key::KEY_A)),
        entry(module("bbb", evdev::Key::BTN_SOUTH, evdev::Key::KEY_B)),
    ];
    report_binding_conflicts(&mut entries);
    assert_eq!(
        entries[1].errors[0].message,
        "overrides 1 binding(s) from config \"aaa\": Key(BTN_SOUTH)+[] — both configs bind the same button, only this one takes effect"
    );
}

#[test]
fn two_bases_for_one_device_are_told() {
    let mut entries = vec![entry(deck("one")), entry(deck("two"))];
    report_device_conflicts(&mut entries);
    let told: Vec<&str> =
        entries.iter().flat_map(|e| &e.errors).map(|e| e.message.as_str()).collect();
    assert_eq!(told.len(), 1);
    assert!(told[0].starts_with("declares device \"Steam Deck\", which config \"one\" also claims"));
}

#[test]
fn gates_of_different_desktops_do_not_overlap() {
    let some = |s: &str| Some(s.to_string());
    assert!(!gates_overlap(&some("KDE"), &some("Hyprland")));
    assert!(gates_overlap(&some("KDE"), &some("KDE")));
    assert!(gates_overlap(&some("KDE"), &None));
}

// ── Layers ────────────────────────────────────────────────────────────────────

#[test]
fn modules_leave_the_base_what_it_is() {
    let base = deck("Steam Deck");
    let mut r = ConfigRegistry::from_entries(vec![
        entry(base.clone()),
        entry(module("aaa", evdev::Key::BTN_SOUTH, evdev::Key::KEY_A)),
        read_entry(
            "zzz".to_string(),
            true,
            Ok(module("zzz", evdev::Key::BTN_EAST, evdev::Key::KEY_B)),
        ),
    ]);
    let found = r.resolve("Steam Deck", &Client::Default, 0).expect("a configuration");
    assert_eq!(found.name, base.name);
    assert_eq!(found.device, base.device);
    assert_eq!(found.gaming_mode_config, base.gaming_mode_config);
    assert_eq!(found.bindings.remap.len(), 2);
}

#[test]
fn a_switched_off_base_is_never_in_effect() {
    let mut off = entry(deck("Steam Deck"));
    off.enabled = false;
    let mut r = ConfigRegistry::from_entries(vec![off]);
    for layout in 0..4 {
        assert!(r.resolve("Steam Deck", &Client::Default, layout).is_none());
    }
}

// ── Pads ──────────────────────────────────────────────────────────────────────

fn pulse(gain_db: i8) -> HapticPulse {
    HapticPulse { duration_us: 100, interval_us: 200, count: 3, gain_db }
}

#[test]
fn presses_and_releases_alternate() {
    let mut run = PadRun::new();
    let mut edges = Vec::new();
    for click in [false, true, true, false, true, false, false] {
        let frame = SinglePadFrame { x: 1, y: 2, touching: true, click };
        edges.extend(run.step(frame, false).edge);
    }
    assert_eq!(
        edges,
        vec![ClickEdge::Press, ClickEdge::Release, ClickEdge::Press, ClickEdge::Release]
    );
}

#[test]
fn only_ways_on_the_pad_count() {
    let mut run = PadRun::new();
    let at = |x, touching| SinglePadFrame { x, y: 0, touching, click: false };
    assert_eq!(run.step(at(1, true), true).moved_from, None);
    assert_eq!(run.step(at(5, true), true).moved_from, Some((1, 0)));
    assert!(run.step(at(9, false), true).lifted);
    assert_eq!(run.step(at(7, true), true).moved_from, None);
    assert_eq!(run.step(at(8, true), false).moved_from, None);
}

fn both(lx: i32, rtouch: bool) -> CombinedPadFrame {
    CombinedPadFrame {
        lx,
        ly: 0,
        ltouch: true,
        lclick: false,
        rx: 3,
        ry: 4,
        rtouch,
        rclick: true,
    }
}

#[test]
fn only_a_pad_that_stays_touched_has_a_way() {
    let ways = frame_ways(both(1, false), both(2, true));
    assert_eq!(ways.len(), 1);
    assert_eq!(ways[0].from, (1, 0));
    assert_eq!(ways[0].to, (2, 0));
    assert_eq!(frame_ways(both(1, true), both(2, true)).len(), 2);
}

#[test]
fn a_gesture_has_a_course() {
    let mut config = GesturePadConfig::default();
    config.haptic.on_gesture_start = Some(pulse(1));
    config.haptic.on_gesture_move =
        Some(GestureMoveHaptic { pixel_interval: 10, pulse: pulse(2) });
    config.haptic.on_gesture_end = Some(pulse(3));
    let mut run = GestureRun::new();
    let start = run.step(GestureEvent::Start(both(1, true)), &config);
    assert_eq!(start.pulse, Some(pulse(1)));
    assert!(start.reset);
    assert!(start.shown.click);
    let go = run.step(GestureEvent::Move(both(2, true)), &config);
    assert_eq!(go.pulse, None);
    assert_eq!(go.ways.len(), 2);
    assert_eq!(go.movement, config.move_pulse());
    let end = run.step(GestureEvent::End, &config);
    assert_eq!(end.pulse, Some(pulse(3)));
    assert!(!end.shown.ltouch && !end.shown.rtouch);
    assert_eq!(run.previous, None);
}

#[test]
fn clicks_are_felt_unless_said_otherwise_and_movements_are_not() {
    let config = MtTrackpadConfig::default();
    assert_eq!(config.press_chain(), HapticChain::built_in());
    assert_eq!(config.release_chain(), Some(HapticChain::built_in()));
    assert_eq!(config.movement_pulse(), None);
    let mut own = MtTrackpadConfig::default();
    own.haptic.on_press = Some(HapticChain::single(pulse(5)));
    own.haptic.on_movement = Some(MovementHaptic { pixel_interval: 7, pulse: pulse(6) });
    assert_eq!(own.press_chain(), HapticChain::single(pulse(5)));
    assert_eq!(own.movement_pulse().map(|m| m.pixel_interval), Some(7));
    assert_eq!(default_movement_pixel_interval(), 3000);
    assert_eq!(default_move_pixel_interval(), 3000);
}

#[test]
fn a_trackpad_mode_sets_up_its_device() {
    let mut t = TrackpadConfig::default();
    t.left.mode = "mt-trackpad".to_string();
    t.right.mode = "wheel".to_string();
    t.combined_gesture_device = true;
    let plan = trackpad_plan(&t);
    assert!(plan.left_touchpad && !plan.left_unknown);
    assert!(!plan.right_touchpad && plan.right_unknown);
    assert!(plan.gestures);
}

#[test]
fn different_pulses_have_different_reports() {
    let command = |pad, gain_db| HapticCommand {
        pad,
        duration_us: 100,
        interval_us: 200,
        count: 3,
        gain_db,
    };
    let one = build_haptic_report(&command(HapticPad::Left, -4));
    assert_ne!(one, build_haptic_report(&command(HapticPad::Right, -4)));
    assert_ne!(one, build_haptic_report(&command(HapticPad::Left, 4)));
    assert_eq!(one[10], 0xfc);
}

#[test]
fn merging_the_same_base_again_changes_nothing() {
    let south = Event::Key(Key(304));
    let east = Event::Key(Key(305));
    let mut base = Config::new_empty("base".to_string());
    base.bindings.remap.insert(Combo::plain(south), vec![Key(30)]);
    base.bindings.commands.insert(Combo::plain(east), vec!["ls".to_string()]);
    base.bindings.labels.insert(Combo::plain(south), "A".to_string());
    base.mapped_modifiers.custom = vec![east];
    base.settings.insert("LSTICK".to_string(), "cursor".to_string());
    let mut own = Config::new_empty("own".to_string());
    own.bindings.commands.insert(Combo::plain(south), vec!["id".to_string()]);
    let once = own.merged_with_base(&base);
    let twice = once.merged_with_base(&base);
    assert_eq!(twice.bindings.remap.get(&Combo::plain(south)), None);
    assert_eq!(twice.bindings.commands.len(), once.bindings.commands.len());
    for i in 0..once.bindings.commands.len() {
        let combo = once.bindings.commands.key_at(i);
        assert_eq!(twice.bindings.commands.get(combo), Some(once.bindings.commands.value_at(i)));
    }
    assert!(twice.bindings.labels.is_empty());
    assert_eq!(twice.mapped_modifiers.all, once.mapped_modifiers.all);
    assert_eq!(twice.settings.get(&"LSTICK".to_string()), Some(&"cursor".to_string()));
}
