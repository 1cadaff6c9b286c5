use deckery::config::{Config, DeviceClass, DeviceDeclaration};
use deckery::conflicts::report_binding_conflicts;
use deckery::event::{Combo, Event, Key};
use deckery::groups::apply_preferences;
use deckery::layers::{ConfigEntry, ConfigError};
use deckery::preferences::Preferences;
use deckery::registry::ConfigRegistry;
use deckery::session::Client;
use std::sync::Arc;

// ── Helpers ───────────────────────────────────────────────────────────────────

fn make_registry(entries: Vec<ConfigEntry>) -> ConfigRegistry {
    ConfigRegistry::from_entries(entries)
}

fn wrap(config: Config, enabled: bool) -> ConfigEntry {
    ConfigEntry {
        name: config.name.clone(),
        config: Some(config),
        enabled,
        errors: vec![],
        from_user: false,
    }
}

/// Same, but read from the user's config directory rather than the shipped one.
fn wrap_user(config: Config, enabled: bool) -> ConfigEntry {
    ConfigEntry { from_user: true, ..wrap(config, enabled) }
}

/// A base config declaring a `[device]` section.
fn base(name: &str, device_names: &[&str]) -> Config {
    let mut c = Config::new_empty(name.to_string());
    c.device = Some(DeviceDeclaration {
        class: DeviceClass::HidSteam,
        names: device_names.iter().map(|s| s.to_string()).collect(),
    });
    c
}

/// A module config: no `[device]`, optionally bound to a window class / layout.
fn module(name: &str, window_class: Option<&str>, layout: u16) -> Config {
    let mut c = Config::new_empty(name.to_string());
    c.module.match_window_class = window_class.map(|s| vec![s.to_string()]);
    c.module.layout = layout;
    c
}

fn key(k: evdev::Key) -> Event {
    Event::Key(Key(k.code()))
}

/// Give a config one distinguishable binding so merge results can be asserted.
fn with_binding(mut c: Config, trigger: evdev::Key, output: evdev::Key) -> Config {
    c.bindings.remap.insert(Combo::plain(key(trigger)), vec![Key(output.code())]);
    c
}

fn has_binding(c: &Config, trigger: evdev::Key, output: evdev::Key) -> bool {
    c.bindings
        .remap
        .get(&Combo::plain(key(trigger)))
        .is_some_and(|keys| keys == &vec![Key(output.code())])
}

/// A ConfigEntry that failed to parse (config: None).
fn broken_entry(name: &str) -> ConfigEntry {
    ConfigEntry {
        name: name.to_string(),
        config: None,
        enabled: true,
        errors: vec![ConfigError { severity: "error", message: "parse failed".into() }],
        from_user: false,
    }
}

fn class(name: &str) -> Client {
    Client::Class(name.to_string(), String::new(), None)
}

// ── any_device_matches ────────────────────────────────────────────────────────

#[test]
fn device_matches_declared_name() {
    let r = make_registry(vec![wrap(base("Steam Deck", &["Steam Deck"]), true)]);
    assert!(r.any_device_matches("Steam Deck"));
}

#[test]
fn device_matches_by_substring() {
    // The kernel-reported name varies; a declared name matching as a substring is enough.
    let r = make_registry(vec![wrap(base("Steam Deck", &["Steam Controller"]), true)]);
    assert!(r.any_device_matches("Valve Software Steam Controller"));
}

#[test]
fn device_matches_any_of_several_declared_names() {
    let r = make_registry(vec![
        wrap(base("Steam Deck", &["Steam Deck", "Steam Controller"]), true),
    ]);
    assert!(r.any_device_matches("Valve Software Steam Controller"));
    assert!(r.any_device_matches("Steam Deck"));
}

#[test]
fn device_does_not_match_undeclared_name() {
    let r = make_registry(vec![wrap(base("Steam Deck", &["Steam Deck"]), true)]);
    assert!(!r.any_device_matches("Xbox Controller"));
}

#[test]
fn module_without_device_section_matches_nothing() {
    let r = make_registry(vec![wrap(module("konsole", Some("org.kde.konsole"), 0), true)]);
    assert!(!r.any_device_matches("Steam Deck"));
}

#[test]
fn disabled_base_matches_nothing() {
    let r = make_registry(vec![wrap(base("Steam Deck", &["Steam Deck"]), false)]);
    assert!(!r.any_device_matches("Steam Deck"));
}

#[test]
fn empty_registry_matches_nothing() {
    assert!(!ConfigRegistry::empty().any_device_matches("Steam Deck"));
}

// ── base_configs ──────────────────────────────────────────────────────────────

#[test]
fn base_configs_lists_only_configs_with_device_section() {
    let r = make_registry(vec![
        wrap(base("Steam Deck", &["Steam Deck"]), true),
        wrap(module("konsole", Some("org.kde.konsole"), 0), true),
    ]);
    let bases = r.base_configs();
    assert_eq!(bases.len(), 1);
    assert_eq!(bases[0].name, "Steam Deck");
}

#[test]
fn base_configs_excludes_disabled_and_broken() {
    let r = make_registry(vec![
        wrap(base("Steam Deck", &["Steam Deck"]), false),
        broken_entry("Xbox"),
    ]);
    assert!(r.base_configs().is_empty());
}

// ── window_class_modules ──────────────────────────────────────────────────────

#[test]
fn window_class_modules_lists_only_class_bound_modules() {
    let r = make_registry(vec![
        wrap(base("Steam Deck", &["Steam Deck"]), true),
        wrap(module("konsole", Some("org.kde.konsole"), 0), true),
        wrap(module("layer2", None, 2), true),
    ]);
    let mods = r.window_class_modules();
    assert_eq!(mods.len(), 1);
    assert_eq!(mods[0].module.match_window_class.as_deref(), Some(["org.kde.konsole".to_string()].as_slice()));
}

#[test]
fn window_class_modules_excludes_disabled() {
    let r = make_registry(vec![
        wrap(module("konsole", Some("org.kde.konsole"), 0), false),
    ]);
    assert!(r.window_class_modules().is_empty());
}

// ── requires_compositor gating ────────────────────────────────────────────────

#[test]
fn compositor_specific_module_hidden_until_compositor_is_set() {
    let mut m = module("kde-gestures", Some("org.kde.konsole"), 0);
    m.module.requires_compositor = Some("KDE".into());
    let r = make_registry(vec![wrap(m, true)]);
    assert!(r.window_class_modules().is_empty());
}

#[test]
fn compositor_specific_module_visible_on_matching_compositor() {
    let mut m = module("kde-gestures", Some("org.kde.konsole"), 0);
    m.module.requires_compositor = Some("KDE".into());
    let mut r = make_registry(vec![wrap(m, true)]);
    r.set_compositor(Some("KDE".into()));
    assert_eq!(r.window_class_modules().len(), 1);
}

#[test]
fn compositor_specific_module_hidden_on_other_compositor() {
    let mut m = module("kde-gestures", Some("org.kde.konsole"), 0);
    m.module.requires_compositor = Some("KDE".into());
    let mut r = make_registry(vec![wrap(m, true)]);
    r.set_compositor(Some("Hyprland".into()));
    assert!(r.window_class_modules().is_empty());
}

#[test]
fn unconditional_module_visible_regardless_of_compositor() {
    let mut r = make_registry(vec![wrap(module("konsole", Some("org.kde.konsole"), 0), true)]);
    r.set_compositor(Some("Hyprland".into()));
    assert_eq!(r.window_class_modules().len(), 1);
}

// ── Automatic module merging ──────────────────────────────────────────────────

#[test]
fn plain_module_bindings_are_merged_into_base() {
    let b = base("Steam Deck", &["Steam Deck"]);
    let m = with_binding(module("gestures", None, 0), evdev::Key::BTN_SOUTH, evdev::Key::KEY_A);

    let mut r = make_registry(vec![wrap(b, true), wrap(m, true)]);
    let cfg = r.resolve("Steam Deck", &Client::Default, 0).unwrap();
    assert!(has_binding(&cfg, evdev::Key::BTN_SOUTH, evdev::Key::KEY_A));
}

#[test]
fn base_binding_wins_over_module() {
    let b = with_binding(base("Steam Deck", &["Steam Deck"]), evdev::Key::BTN_SOUTH, evdev::Key::KEY_B);
    let m = with_binding(module("gestures", None, 0), evdev::Key::BTN_SOUTH, evdev::Key::KEY_A);

    let mut r = make_registry(vec![wrap(b, true), wrap(m, true)]);
    let cfg = r.resolve("Steam Deck", &Client::Default, 0).unwrap();
    assert!(has_binding(&cfg, evdev::Key::BTN_SOUTH, evdev::Key::KEY_B));
}

#[test]
fn alphabetically_last_module_wins_over_earlier_one() {
    // Colliding bindings are a config bug, reported by report_binding_conflicts.
    // Order is fixed alphabetically so the outcome is at least deterministic,
    // and the warning lands on the config that actually took effect.
    let first  = with_binding(module("aaa", None, 0), evdev::Key::BTN_SOUTH, evdev::Key::KEY_A);
    let second = with_binding(module("bbb", None, 0), evdev::Key::BTN_SOUTH, evdev::Key::KEY_B);

    let mut r = make_registry(vec![
        wrap(base("Steam Deck", &["Steam Deck"]), true),
        wrap(first, true),
        wrap(second, true),
    ]);
    let cfg = r.resolve("Steam Deck", &Client::Default, 0).unwrap();
    assert!(has_binding(&cfg, evdev::Key::BTN_SOUTH, evdev::Key::KEY_B));
}

#[test]
fn a_user_module_wins_over_an_alphabetically_later_shipped_one() {
    // The point of the rule: a small hand-written file patches the shipped set
    // without its author having to find a name that sorts last.
    let shipped = with_binding(module("zzz Shipped", None, 0), evdev::Key::BTN_SOUTH, evdev::Key::KEY_A);
    let mine    = with_binding(module("aaa Mine",    None, 0), evdev::Key::BTN_SOUTH, evdev::Key::KEY_B);

    let mut r = make_registry(vec![
        wrap(base("Steam Deck", &["Steam Deck"]), true),
        wrap(shipped, true),
        wrap_user(mine, true),
    ]);
    let cfg = r.resolve("Steam Deck", &Client::Default, 0).unwrap();
    assert!(has_binding(&cfg, evdev::Key::BTN_SOUTH, evdev::Key::KEY_B));
}

/// Declare *trigger* a layer modifier of this config, the way the parser does
/// for every combo it reads. The other helpers here build through
/// `Config::new_empty` and leave the set empty, which is precisely why a merge
/// that dropped it went unnoticed for so long.
fn with_modifier(mut c: Config, trigger: evdev::Key) -> Config {
    c.mapped_modifiers.default.push(key(trigger));
    c.mapped_modifiers.all.push(key(trigger));
    c
}

#[test]
fn a_user_module_does_not_strip_the_bases_modifiers() {
    // The user's modules merge on top of the base, which means the merge starts
    // from an empty shell — and everything the base config knows has to survive
    // the trip. L1 not surviving it turns every L1-combo into a dead binding,
    // triggered by nothing more than a one-line file in ~/.config/deckery.
    let b = with_modifier(base("Steam Deck Base", &["Steam Deck"]), evdev::Key::BTN_TL);
    let mut r = make_registry(vec![
        wrap(b, true),
        wrap_user(module("My Tweaks", None, 0), true),
    ]);
    let cfg = r.resolve("Steam Deck Base", &Client::Default, 0).unwrap();
    assert!(cfg.mapped_modifiers.all.contains(&key(evdev::Key::BTN_TL)),
            "base modifier lost: {:?}", cfg.mapped_modifiers);
}

#[test]
fn a_module_brings_its_own_modifiers_along() {
    // A module is free to introduce a modifier the base config never uses. Its
    // bindings are merged either way, so without the modifier they would load
    // and then never fire.
    let m = with_modifier(module("KDE Desktop", None, 0), evdev::Key::BTN_TR);
    let mut r = make_registry(vec![
        wrap(base("Steam Deck Base", &["Steam Deck"]), true),
        wrap(m, true),
    ]);
    let cfg = r.resolve("Steam Deck Base", &Client::Default, 0).unwrap();
    assert!(cfg.mapped_modifiers.all.contains(&key(evdev::Key::BTN_TR)),
            "module modifier lost: {:?}", cfg.mapped_modifiers);
}

#[test]
fn an_app_override_keeps_the_modifiers_of_the_config_below_it() {
    let b = with_modifier(base("Steam Deck Base", &["Steam Deck"]), evdev::Key::BTN_TL);
    let mut r = make_registry(vec![
        wrap(b, true),
        wrap(module("Firefox", Some("firefox"), 0), true),
    ]);
    let cfg = r.resolve("Steam Deck Base", &class("firefox"), 0).unwrap();
    assert!(cfg.mapped_modifiers.all.contains(&key(evdev::Key::BTN_TL)),
            "base modifier lost under an app override: {:?}", cfg.mapped_modifiers);
}

#[test]
fn among_user_modules_the_alphabet_still_decides() {
    let first  = with_binding(module("aaa", None, 0), evdev::Key::BTN_SOUTH, evdev::Key::KEY_A);
    let second = with_binding(module("bbb", None, 0), evdev::Key::BTN_SOUTH, evdev::Key::KEY_B);

    let mut r = make_registry(vec![
        wrap(base("Steam Deck", &["Steam Deck"]), true),
        wrap_user(first, true),
        wrap_user(second, true),
    ]);
    let cfg = r.resolve("Steam Deck", &Client::Default, 0).unwrap();
    assert!(has_binding(&cfg, evdev::Key::BTN_SOUTH, evdev::Key::KEY_B));
}

#[test]
fn a_user_module_outranks_the_shipped_base_config() {
    // The bindings somebody wants to change are declared in the base config, so
    // the root rule would buy nothing if it stopped below it.
    let b    = with_binding(base("Steam Deck", &["Steam Deck"]), evdev::Key::BTN_SOUTH, evdev::Key::KEY_A);
    let mine = with_binding(module("Mine", None, 0), evdev::Key::BTN_SOUTH, evdev::Key::KEY_B);

    let mut r = make_registry(vec![wrap(b, true), wrap_user(mine, true)]);
    let cfg = r.resolve("Steam Deck", &Client::Default, 0).unwrap();
    assert!(has_binding(&cfg, evdev::Key::BTN_SOUTH, evdev::Key::KEY_B));
}

#[test]
fn the_users_own_base_config_outranks_their_modules() {
    // Both files are the user's, so nothing is being worked around any more and
    // the more specific statement — the one naming the device — wins.
    let b    = with_binding(base("Steam Deck", &["Steam Deck"]), evdev::Key::BTN_SOUTH, evdev::Key::KEY_A);
    let mine = with_binding(module("Mine", None, 0), evdev::Key::BTN_SOUTH, evdev::Key::KEY_B);

    let mut r = make_registry(vec![wrap_user(b, true), wrap_user(mine, true)]);
    let cfg = r.resolve("Steam Deck", &Client::Default, 0).unwrap();
    assert!(has_binding(&cfg, evdev::Key::BTN_SOUTH, evdev::Key::KEY_A));
}

#[test]
fn a_user_module_keeps_what_the_base_config_is() {
    // The user's modules are merged on top of the base, so the result is built
    // from a file that declares no hardware. What it *is* must survive that.
    let mut b = with_binding(base("Steam Deck", &["Steam Deck"]), evdev::Key::BTN_SOUTH, evdev::Key::KEY_A);
    b.aliases.insert("A".to_string(), "BTN_SOUTH".to_string());
    let mine = with_binding(module("Mine", None, 0), evdev::Key::BTN_NORTH, evdev::Key::KEY_B);

    let mut r = make_registry(vec![wrap(b, true), wrap_user(mine, true)]);
    let cfg = r.resolve("Steam Deck", &Client::Default, 0).unwrap();
    assert_eq!(cfg.name, "Steam Deck");
    assert!(cfg.device.is_some(), "the resolved config must still name its device");
    assert_eq!(cfg.aliases.get(&"A".to_string()).map(String::as_str), Some("BTN_SOUTH"));
    // And the base's own bindings are still there where nothing displaced them.
    assert!(has_binding(&cfg, evdev::Key::BTN_SOUTH, evdev::Key::KEY_A));
    assert!(has_binding(&cfg, evdev::Key::BTN_NORTH, evdev::Key::KEY_B));
}

#[test]
fn a_user_module_does_not_take_over_gaming_mode() {
    // Same reasoning as for a shipped module: Gaming Mode is device-level, and
    // the base config is its sole authority whoever wrote the module.
    let mut b = base("Steam Deck", &["Steam Deck"]);
    b.gaming_mode_config.auto_detect_steam_games = false;
    let mine = module("Mine", None, 0);

    let mut r = make_registry(vec![wrap(b, true), wrap_user(mine, true)]);
    let cfg = r.resolve("Steam Deck", &Client::Default, 0).unwrap();
    assert!(!cfg.gaming_mode_config.auto_detect_steam_games);
}

#[test]
fn module_gated_to_another_compositor_is_not_merged() {
    let mut m = with_binding(module("kde-only", None, 0), evdev::Key::BTN_SOUTH, evdev::Key::KEY_A);
    m.module.requires_compositor = Some("KDE".into());

    let mut r = make_registry(vec![
        wrap(base("Steam Deck", &["Steam Deck"]), true),
        wrap(m, true),
    ]);
    r.set_compositor(Some("Hyprland".into()));
    let cfg = r.resolve("Steam Deck", &Client::Default, 0).unwrap();
    assert!(!has_binding(&cfg, evdev::Key::BTN_SOUTH, evdev::Key::KEY_A));
}

#[test]
fn disabled_module_is_not_merged() {
    let m = with_binding(module("gestures", None, 0), evdev::Key::BTN_SOUTH, evdev::Key::KEY_A);
    let mut r = make_registry(vec![
        wrap(base("Steam Deck", &["Steam Deck"]), true),
        wrap(m, false),
    ]);
    let cfg = r.resolve("Steam Deck", &Client::Default, 0).unwrap();
    assert!(!has_binding(&cfg, evdev::Key::BTN_SOUTH, evdev::Key::KEY_A));
}

#[test]
fn app_and_layout_modules_are_not_merged_into_base() {
    let app    = with_binding(module("konsole", Some("org.kde.konsole"), 0), evdev::Key::BTN_SOUTH, evdev::Key::KEY_A);
    let layout = with_binding(module("layer2", None, 2), evdev::Key::BTN_NORTH, evdev::Key::KEY_B);

    let mut r = make_registry(vec![
        wrap(base("Steam Deck", &["Steam Deck"]), true),
        wrap(app, true),
        wrap(layout, true),
    ]);
    let cfg = r.resolve("Steam Deck", &Client::Default, 0).unwrap();
    assert!(!has_binding(&cfg, evdev::Key::BTN_SOUTH, evdev::Key::KEY_A));
    assert!(!has_binding(&cfg, evdev::Key::BTN_NORTH, evdev::Key::KEY_B));
}

#[test]
fn trackpad_config_reaches_the_base_from_a_module() {
    // The shipped trackpad config lives in its own module, and the base config
    // carries no [trackpad] at all. merge_base() only inherits trackpad
    // settings when both of its own sides are "disabled" — which an empty base
    // happens to satisfy. Tightening that condition would silently leave both
    // pads dead, hence this test.
    let mut m = module("Steam Deck Trackpad", None, 0);
    m.trackpad.right.mode = "mt-trackpad".to_string();
    m.trackpad.combined_gesture_device = true;

    let mut r = make_registry(vec![
        wrap(base("Steam Deck", &["Steam Deck"]), true),
        wrap(m, true),
    ]);
    let cfg = r.resolve("Steam Deck", &Client::Default, 0).unwrap();
    assert_eq!(cfg.trackpad.right.mode, "mt-trackpad");
    assert!(cfg.trackpad.combined_gesture_device);
}

#[test]
fn base_trackpad_config_wins_over_a_module() {
    // The other direction: once the base declares a pad, the module must not
    // take it back — an override of Steam Deck.toml has to stay in charge.
    let mut b = base("Steam Deck", &["Steam Deck"]);
    b.trackpad.right.mode = "trackball".to_string();
    let mut m = module("Steam Deck Trackpad", None, 0);
    m.trackpad.right.mode = "mt-trackpad".to_string();

    let mut r = make_registry(vec![wrap(b, true), wrap(m, true)]);
    let cfg = r.resolve("Steam Deck", &Client::Default, 0).unwrap();
    assert_eq!(cfg.trackpad.right.mode, "trackball");
}

#[test]
fn settings_reach_the_base_from_a_module() {
    // [settings] moved into Steam Deck Settings.toml, so stick mode and
    // deadzones now arrive through the module merge rather than from the file
    // that declares the device.
    let mut m = module("Steam Deck Settings", None, 0);
    m.settings.insert("RSTICK".to_string(), "cursor".to_string());

    let mut r = make_registry(vec![
        wrap(base("Steam Deck", &["Steam Deck"]), true),
        wrap(m, true),
    ]);
    let cfg = r.resolve("Steam Deck", &Client::Default, 0).unwrap();
    assert_eq!(cfg.settings.get(&"RSTICK".to_string()).map(String::as_str), Some("cursor"));
}

#[test]
fn module_does_not_override_base_gaming_mode() {
    let mut b = base("Steam Deck", &["Steam Deck"]);
    b.gaming_mode_config.auto_detect_steam_games = false;

    let mut r = make_registry(vec![wrap(b, true), wrap(module("gestures", None, 0), true)]);
    let cfg = r.resolve("Steam Deck", &Client::Default, 0).unwrap();
    assert!(!cfg.gaming_mode_config.auto_detect_steam_games);
}

// ── resolve ───────────────────────────────────────────────────────────────────

#[test]
fn resolve_returns_none_without_base() {
    let mut r = make_registry(vec![wrap(module("konsole", Some("org.kde.konsole"), 0), true)]);
    assert!(r.resolve("Steam Deck", &class("org.kde.konsole"), 0).is_none());
}

#[test]
fn resolve_returns_base_when_no_module_matches() {
    let mut r = make_registry(vec![wrap(base("Steam Deck", &["Steam Deck"]), true)]);
    let cfg = r.resolve("Steam Deck", &class("org.kde.konsole"), 0).unwrap();
    assert_eq!(cfg.name, "Steam Deck");
}

#[test]
fn resolve_applies_window_class_module() {
    let mut r = make_registry(vec![
        wrap(base("Steam Deck", &["Steam Deck"]), true),
        wrap(module("konsole", Some("org.kde.konsole"), 0), true),
    ]);
    let cfg = r.resolve("Steam Deck", &class("org.kde.konsole"), 0).unwrap();
    assert_eq!(cfg.name, "konsole");
}

#[test]
fn resolve_ignores_module_for_other_window_class() {
    let mut r = make_registry(vec![
        wrap(base("Steam Deck", &["Steam Deck"]), true),
        wrap(module("konsole", Some("org.kde.konsole"), 0), true),
    ]);
    let cfg = r.resolve("Steam Deck", &class("firefox"), 0).unwrap();
    assert_eq!(cfg.name, "Steam Deck");
}

#[test]
fn resolve_window_class_module_wins_over_layout_only_module() {
    let mut r = make_registry(vec![
        wrap(base("Steam Deck", &["Steam Deck"]), true),
        wrap(module("layer1", None, 1), true),
        wrap(module("konsole-layer1", Some("org.kde.konsole"), 1), true),
    ]);
    let cfg = r.resolve("Steam Deck", &class("org.kde.konsole"), 1).unwrap();
    assert_eq!(cfg.name, "konsole-layer1");
}

#[test]
fn resolve_falls_back_to_layout_only_module() {
    let mut r = make_registry(vec![
        wrap(base("Steam Deck", &["Steam Deck"]), true),
        wrap(module("layer2", None, 2), true),
    ]);
    let cfg = r.resolve("Steam Deck", &class("firefox"), 2).unwrap();
    assert_eq!(cfg.name, "layer2");
}

#[test]
fn resolve_returns_none_for_unpopulated_layout() {
    // change_active_layout() relies on this to skip empty layout slots.
    let mut r = make_registry(vec![wrap(base("Steam Deck", &["Steam Deck"]), true)]);
    assert!(r.resolve("Steam Deck", &Client::Default, 3).is_none());
}

#[test]
fn resolve_module_bound_to_other_layout_does_not_apply() {
    let mut r = make_registry(vec![
        wrap(base("Steam Deck", &["Steam Deck"]), true),
        wrap(module("konsole", Some("org.kde.konsole"), 1), true),
    ]);
    let cfg = r.resolve("Steam Deck", &class("org.kde.konsole"), 0).unwrap();
    assert_eq!(cfg.name, "Steam Deck");
}

#[test]
fn resolve_disabled_base_returns_none() {
    let mut r = make_registry(vec![
        wrap(base("Steam Deck", &["Steam Deck"]), false),
        wrap(module("konsole", Some("org.kde.konsole"), 0), true),
    ]);
    assert!(r.resolve("Steam Deck", &class("org.kde.konsole"), 0).is_none());
}

#[test]
fn resolve_disabled_module_falls_back_to_base() {
    let mut r = make_registry(vec![
        wrap(base("Steam Deck", &["Steam Deck"]), true),
        wrap(module("konsole", Some("org.kde.konsole"), 0), false),
    ]);
    let cfg = r.resolve("Steam Deck", &class("org.kde.konsole"), 0).unwrap();
    assert_eq!(cfg.name, "Steam Deck");
}

#[test]
fn resolve_broken_module_falls_back_to_base() {
    let mut r = make_registry(vec![
        wrap(base("Steam Deck", &["Steam Deck"]), true),
        broken_entry("konsole"),
    ]);
    let cfg = r.resolve("Steam Deck", &class("org.kde.konsole"), 0).unwrap();
    assert_eq!(cfg.name, "Steam Deck");
}

#[test]
fn resolve_unknown_base_name_returns_none() {
    let mut r = make_registry(vec![wrap(base("Steam Deck", &["Steam Deck"]), true)]);
    assert!(r.resolve("Xbox Controller", &Client::Default, 0).is_none());
}

#[test]
fn resolve_keys_on_config_name_not_device_declaration() {
    // The config is named "deck"; its [device] names share nothing with it.
    // launch_tasks() already did the device matching, so resolve() must find
    // the config by name alone.
    let mut r = make_registry(vec![wrap(base("deck", &["Valve Software Steam Controller"]), true)]);
    assert_eq!(r.resolve("deck", &Client::Default, 0).unwrap().name, "deck");
    // The kernel name is not a registry key and must not resolve.
    assert!(r.resolve("Valve Software Steam Controller", &Client::Default, 0).is_none());
}

#[test]
fn resolve_module_name_is_not_a_base_config() {
    // Only entries with a [device] section can anchor a resolve.
    let mut r = make_registry(vec![
        wrap(base("Steam Deck", &["Steam Deck"]), true),
        wrap(module("konsole", Some("org.kde.konsole"), 0), true),
    ]);
    assert!(r.resolve("konsole", &Client::Default, 0).is_none());
}

#[test]
fn resolve_module_gated_by_compositor_does_not_apply() {
    let mut m = module("konsole", Some("org.kde.konsole"), 0);
    m.module.requires_compositor = Some("KDE".into());
    let mut r = make_registry(vec![
        wrap(base("Steam Deck", &["Steam Deck"]), true),
        wrap(m, true),
    ]);
    r.set_compositor(Some("Hyprland".into()));
    let cfg = r.resolve("Steam Deck", &class("org.kde.konsole"), 0).unwrap();
    assert_eq!(cfg.name, "Steam Deck");
}

// ── set_enabled / snapshot ────────────────────────────────────────────────────

#[test]
fn set_enabled_returns_true_when_found() {
    let mut r = make_registry(vec![wrap(base("Steam Deck", &["Steam Deck"]), true)]);
    assert!(r.set_enabled("Steam Deck", false));
}

#[test]
fn set_enabled_returns_false_when_not_found() {
    assert!(!ConfigRegistry::empty().set_enabled("Steam Deck", false));
}

#[test]
fn set_enabled_reflected_in_snapshot() {
    let mut r = make_registry(vec![wrap(base("Steam Deck", &["Steam Deck"]), true)]);
    assert!(r.snapshot().iter().any(|e| e.name == "Steam Deck" && e.enabled));
    r.set_enabled("Steam Deck", false);
    assert!(r.snapshot().iter().any(|e| e.name == "Steam Deck" && !e.enabled));
}

#[test]
fn set_enabled_refuses_to_activate_broken_config() {
    let mut r = make_registry(vec![broken_entry("Steam Deck")]);
    assert!(!r.set_enabled("Steam Deck", true));
}

#[test]
fn snapshot_contains_all_entries() {
    let r = make_registry(vec![
        wrap(base("Steam Deck", &["Steam Deck"]), true),
        wrap(module("konsole", Some("org.kde.konsole"), 0), true),
        broken_entry("bad"),
    ]);
    assert_eq!(r.snapshot().len(), 3);
}

#[test]
fn snapshot_reports_kind_per_entry() {
    let r = make_registry(vec![
        wrap(base("Steam Deck", &["Steam Deck"]), true),
        wrap(module("Konsole", Some("org.kde.konsole"), 0), true),
        wrap(module("Voice Control", None, 0), true),
        broken_entry("bad"),
    ]);
    let snap = r.snapshot();
    let kind = |n: &str| snap.iter().find(|e| e.name == n).unwrap().kind;
    assert_eq!(kind("Steam Deck"),    "base");
    assert_eq!(kind("Konsole"),       "app");
    assert_eq!(kind("Voice Control"), "module");
    assert_eq!(kind("bad"),           "unknown");
}

#[test]
fn snapshot_nests_plain_modules_under_the_base_config() {
    let r = make_registry(vec![
        wrap(base("Steam Deck", &["Steam Deck"]), true),
        wrap(module("Voice Control", None, 0), true),
        wrap(module("Konsole", Some("org.kde.konsole"), 0), true),
    ]);
    let snap = r.snapshot();
    let parent = |n: &str| snap.iter().find(|e| e.name == n).unwrap().parent.clone();
    assert_eq!(parent("Voice Control"), Some("Steam Deck".to_string()));
    assert_eq!(parent("Steam Deck"),    None);
    assert_eq!(parent("Konsole"),       None);
}

#[test]
fn snapshot_hides_modules_gated_to_another_compositor() {
    let mut hypr = module("Hyprland Desktop", None, 0);
    hypr.module.requires_compositor = Some("Hyprland".to_string());
    let mut kde = module("KDE Desktop", None, 0);
    kde.module.requires_compositor = Some("KDE".to_string());
    let mut r = make_registry(vec![
        wrap(base("Steam Deck", &["Steam Deck"]), true),
        wrap(hypr, true),
        wrap(kde, true),
    ]);
    r.set_compositor(Some("KDE".to_string()));
    let names: Vec<String> = r.snapshot().into_iter().map(|e| e.name).collect();
    assert!(names.contains(&"KDE Desktop".to_string()));
    assert!(!names.contains(&"Hyprland Desktop".to_string()));
}

#[test]
fn snapshot_keeps_unparsed_files_regardless_of_compositor() {
    let mut r = make_registry(vec![broken_entry("Hyprland Desktop")]);
    r.set_compositor(Some("KDE".to_string()));
    assert_eq!(r.snapshot().len(), 1);
}

// ── base_config_error ─────────────────────────────────────────────────────────

#[test]
fn base_config_error_none_when_empty_registry() {
    assert!(ConfigRegistry::empty().base_config_error().is_none());
}

#[test]
fn base_config_error_none_when_all_valid() {
    let r = make_registry(vec![
        wrap(base("Steam Deck", &["Steam Deck"]), true),
        wrap(module("konsole", Some("org.kde.konsole"), 0), true),
    ]);
    assert!(r.base_config_error().is_none());
}

#[test]
fn base_config_error_some_when_a_file_fails_to_parse() {
    let r = make_registry(vec![
        broken_entry("Steam Deck"),
        wrap(module("konsole", Some("org.kde.konsole"), 0), true),
    ]);
    let msg = r.base_config_error();
    assert!(msg.is_some_and(|m| m.contains("parse failed")));
}

#[test]
fn base_config_error_ignores_warning_severity() {
    let r = make_registry(vec![
        ConfigEntry {
            name:    "Steam Deck".to_string(),
            config:  None,
            enabled: false,
            errors:  vec![ConfigError { severity: "warning", message: "unknown key".into() }],
            from_user: false,
        },
    ]);
    assert!(r.base_config_error().is_none());
}

#[test]
fn base_config_error_cleared_after_entry_replaced() {
    // Simulate a reload: broken entry replaced by a valid one.
    let mut r = make_registry(vec![broken_entry("Steam Deck")]);
    assert!(r.base_config_error().is_some());
    r.put(wrap(base("Steam Deck", &["Steam Deck"]), true));
    assert!(r.base_config_error().is_none());
}

// ── Binding conflicts ─────────────────────────────────────────────────────────

fn entries_of(configs: Vec<Config>) -> Vec<ConfigEntry> {
    configs.into_iter().map(|c| wrap(c, true)).collect()
}

fn warnings_of(entries: &[ConfigEntry], name: &str) -> Vec<String> {
    entries
        .iter()
        .filter(|e| e.name == name)
        .flat_map(|e| e.errors.iter())
        .filter(|e| e.severity == "warning")
        .map(|e| e.message.clone())
        .collect()
}

#[test]
fn colliding_modules_warn_on_the_losing_config() {
    let mut m = entries_of(vec![
        with_binding(module("aaa", None, 0), evdev::Key::BTN_SOUTH, evdev::Key::KEY_A),
        with_binding(module("bbb", None, 0), evdev::Key::BTN_SOUTH, evdev::Key::KEY_B),
    ]);
    report_binding_conflicts(&mut m);

    assert!(warnings_of(&m, "aaa").is_empty());
    let bbb = warnings_of(&m, "bbb");
    assert_eq!(bbb.len(), 1);
    assert!(bbb[0].contains("aaa"), "warning must name the config it collides with: {}", bbb[0]);
}

#[test]
fn a_user_module_overriding_a_shipped_one_does_not_warn() {
    // Deliberate, and the only way to change one binding without adopting the
    // whole file it came in — warning about it would train the user to ignore
    // the warnings that do mean something.
    let shipped = with_binding(module("Steam Deck Buttons", None, 0), evdev::Key::BTN_SOUTH, evdev::Key::KEY_A);
    let mine    = with_binding(module("My Tweaks",          None, 0), evdev::Key::BTN_SOUTH, evdev::Key::KEY_B);
    let mut m = vec![wrap(shipped, true), wrap_user(mine, true)];
    report_binding_conflicts(&mut m);

    assert!(warnings_of(&m, "My Tweaks").is_empty());
    assert!(warnings_of(&m, "Steam Deck Buttons").is_empty());
}

#[test]
fn two_user_modules_colliding_still_warn() {
    // Same root, so nothing says which of them the user meant to win.
    let mut m: Vec<ConfigEntry> = vec![
        with_binding(module("aaa", None, 0), evdev::Key::BTN_SOUTH, evdev::Key::KEY_A),
        with_binding(module("bbb", None, 0), evdev::Key::BTN_SOUTH, evdev::Key::KEY_B),
    ].into_iter().map(|c| wrap_user(c, true)).collect();
    report_binding_conflicts(&mut m);

    assert_eq!(warnings_of(&m, "bbb").len(), 1);
}

#[test]
fn distinct_bindings_do_not_warn() {
    let mut m = entries_of(vec![
        with_binding(module("aaa", None, 0), evdev::Key::BTN_SOUTH, evdev::Key::KEY_A),
        with_binding(module("bbb", None, 0), evdev::Key::BTN_NORTH, evdev::Key::KEY_B),
    ]);
    report_binding_conflicts(&mut m);
    assert!(warnings_of(&m, "bbb").is_empty());
}

#[test]
fn modules_gated_to_different_compositors_do_not_warn() {
    // KDE and Hyprland modules never load together, so identical bindings in
    // both are the intended translation of one gesture, not a conflict.
    let mut kde = with_binding(module("KDE Desktop", None, 0), evdev::Key::BTN_SOUTH, evdev::Key::KEY_A);
    kde.module.requires_compositor = Some("KDE".into());
    let mut hypr = with_binding(module("Hyprland Desktop", None, 0), evdev::Key::BTN_SOUTH, evdev::Key::KEY_B);
    hypr.module.requires_compositor = Some("Hyprland".into());

    let mut m = entries_of(vec![kde, hypr]);
    report_binding_conflicts(&mut m);
    assert!(warnings_of(&m, "KDE Desktop").is_empty());
    assert!(warnings_of(&m, "Hyprland Desktop").is_empty());
}

#[test]
fn base_and_app_configs_are_exempt_from_conflict_reporting() {
    // Only plain modules stack on top of each other; a base config is expected
    // to override its modules, and an app config only applies to its window.
    let mut m = entries_of(vec![
        with_binding(base("Steam Deck", &["Steam Deck"]), evdev::Key::BTN_SOUTH, evdev::Key::KEY_A),
        with_binding(module("konsole", Some("org.kde.konsole"), 0), evdev::Key::BTN_SOUTH, evdev::Key::KEY_B),
        with_binding(module("zzz", None, 0), evdev::Key::BTN_SOUTH, evdev::Key::KEY_C),
    ]);
    report_binding_conflicts(&mut m);
    assert!(warnings_of(&m, "zzz").is_empty());
}

// ── Exclusive groups ──────────────────────────────────────────────────────────

/// A module belonging to a set of mutually exclusive modules.
fn grouped(name: &str, group: &str) -> Config {
    let mut c = Config::new_empty(name.to_string());
    c.module.exclusive_group = Some(group.to_string());
    c
}

fn enabled_names(r: &ConfigRegistry) -> Vec<String> {
    let mut names: Vec<String> =
        r.entries().iter().filter(|e| e.enabled).map(|e| e.name.clone()).collect();
    names.sort();
    names
}

fn enabled(entries: &[ConfigEntry], name: &str) -> bool {
    entries.iter().any(|e| e.name == name && e.enabled)
}

#[test]
fn enabling_a_group_member_switches_its_siblings_off() {
    let mut r = make_registry(vec![
        wrap(grouped("Layout Horizontal", "layout"), true),
        wrap(grouped("Layout Vertical",   "layout"), false),
        wrap(grouped("Layout Grid",       "layout"), false),
        wrap(module("Voice Control", None, 0), true),
    ]);

    assert!(r.set_enabled("Layout Vertical", true));

    assert_eq!(enabled_names(&r), vec!["Layout Vertical", "Voice Control"]);
}

#[test]
fn switching_the_active_member_off_switches_the_group_off() {
    let mut r = make_registry(vec![
        wrap(grouped("Layout Horizontal", "layout"), true),
        wrap(grouped("Layout Vertical",   "layout"), false),
    ]);

    assert!(r.set_enabled("Layout Horizontal", false));
    assert!(enabled_names(&r).is_empty());

    // Recorded as a group state, not as two disabled modules: the members are
    // off because the group is, and a later apply_preferences must read it so.
    let written = r.preferences().clone();
    assert_eq!(written.groups.disabled, vec!["layout"]);
    assert!(written.modules.disabled.is_empty());
}

#[test]
fn switching_an_inactive_member_off_does_nothing() {
    let mut r = make_registry(vec![
        wrap(grouped("Layout Horizontal", "layout"), true),
        wrap(grouped("Layout Vertical",   "layout"), false),
    ]);

    // It is already off. Taking the whole group down over a click that said
    // nothing new would be a surprise.
    assert!(r.set_enabled("Layout Vertical", false));
    assert_eq!(enabled_names(&r), vec!["Layout Horizontal"]);
}

#[test]
fn a_disabled_group_stays_off_across_a_reload() {
    let mut r = make_registry(vec![
        wrap(grouped("Layout Horizontal", "layout"), true),
        wrap(grouped("Layout Vertical",   "layout"), false),
    ]);

    assert!(r.set_group_enabled("layout", false));
    assert!(enabled_names(&r).is_empty());

    // What a restart does: fresh entries, all defaulting to enabled, stamped
    // with the file that was just written.
    let mut fresh = vec![
        wrap(grouped("Layout Horizontal", "layout"), true),
        wrap(grouped("Layout Vertical",   "layout"), true),
    ];
    apply_preferences(&mut fresh, r.preferences(), &None);

    assert!(fresh.iter().all(|e| !e.enabled));
}

#[test]
fn switching_a_group_back_on_restores_the_remembered_member() {
    let mut r = make_registry(vec![
        wrap(grouped("Layout Horizontal", "layout"), true),
        wrap(grouped("Layout Vertical",   "layout"), false),
    ]);

    r.set_enabled("Layout Vertical", true);
    r.set_group_enabled("layout", false);
    assert!(enabled_names(&r).is_empty());

    // Not "Layout Grid"-style alphabetical reset: the choice outlives the off state.
    assert!(r.set_group_enabled("layout", true));
    assert_eq!(enabled_names(&r), vec!["Layout Vertical"]);
}

#[test]
fn picking_a_member_switches_a_disabled_group_back_on() {
    let mut r = make_registry(vec![
        wrap(grouped("Layout Horizontal", "layout"), true),
        wrap(grouped("Layout Vertical",   "layout"), false),
    ]);

    r.set_group_enabled("layout", false);
    assert!(r.set_enabled("Layout Vertical", true));

    assert_eq!(enabled_names(&r), vec!["Layout Vertical"]);
    assert!(r.preferences().clone().groups.disabled.is_empty());
}

#[test]
fn an_unknown_group_cannot_be_switched() {
    let mut r = make_registry(vec![
        wrap(grouped("Layout Horizontal", "layout"), true),
    ]);

    assert!(!r.set_group_enabled("nonexistent", false));
}

#[test]
fn a_group_choice_survives_a_reload() {
    let mut r = make_registry(vec![
        wrap(grouped("Layout Horizontal", "layout"), true),
        wrap(grouped("Layout Vertical",   "layout"), false),
    ]);

    r.set_enabled("Layout Vertical", true);

    let written = r.preferences().clone();
    assert_eq!(written.group_choice("layout"), Some("Layout Vertical"));
}

#[test]
fn disabling_a_module_is_recorded_as_a_preference() {
    let mut r = make_registry(vec![
        wrap(module("Voice Control", None, 0), true),
    ]);

    r.set_enabled("Voice Control", false);

    assert_eq!(r.preferences().clone().modules.disabled, vec!["Voice Control".to_string()]);
}

#[test]
fn a_recorded_choice_is_restored_over_the_loaded_defaults() {
    let mut entries = vec![
        wrap(grouped("Layout Horizontal", "layout"), true),
        wrap(grouped("Layout Vertical",   "layout"), true),
    ];

    let mut prefs = Preferences::default();
    prefs.set_group_choice("layout", "Layout Vertical", &Vec::new());
    apply_preferences(&mut entries, &prefs, &None);

    assert!(!enabled(&entries, "Layout Horizontal"));
    assert!(enabled(&entries, "Layout Vertical"));
}

#[test]
fn a_group_without_a_recorded_choice_activates_its_first_member() {
    let mut entries = vec![
        wrap(grouped("Layout Vertical", "layout"), true),
        wrap(grouped("Layout Grid",     "layout"), true),
    ];

    apply_preferences(&mut entries, &Preferences::default(), &None);

    assert!(enabled(&entries, "Layout Grid"));
    assert!(!enabled(&entries, "Layout Vertical"));
}

#[test]
fn a_choice_naming_a_removed_module_falls_back_to_the_first_member() {
    let mut entries = vec![
        wrap(grouped("Layout Horizontal", "layout"), true),
        wrap(grouped("Layout Vertical",   "layout"), true),
    ];

    let mut prefs = Preferences::default();
    prefs.set_group_choice("layout", "Layout Diagonal", &Vec::new());
    apply_preferences(&mut entries, &prefs, &None);

    assert!(enabled(&entries, "Layout Horizontal"));
    assert!(!enabled(&entries, "Layout Vertical"));
}

#[test]
fn a_disabled_module_stays_disabled_after_reapplying_preferences() {
    let mut entries = vec![
        wrap(module("Voice Control", None, 0), true),
    ];

    let mut prefs = Preferences::default();
    prefs.set_disabled("Voice Control", true);
    apply_preferences(&mut entries, &prefs, &None);

    assert!(!enabled(&entries, "Voice Control"));
}

#[test]
fn modules_in_the_same_exclusive_group_do_not_warn() {
    let mut a = grouped("Layout Alpha", "layout");
    let mut b = grouped("Layout Bravo", "layout");
    a = with_binding(a, evdev::Key::BTN_DPAD_UP, evdev::Key::KEY_A);
    b = with_binding(b, evdev::Key::BTN_DPAD_UP, evdev::Key::KEY_B);

    let mut entries = vec![wrap(a, true), wrap(b, true)];
    report_binding_conflicts(&mut entries);

    assert!(warnings_of(&entries, "Layout Bravo").is_empty());
}

#[test]
fn a_group_member_still_warns_about_an_ungrouped_module() {
    let a = with_binding(module("Alpha", None, 0), evdev::Key::BTN_DPAD_UP, evdev::Key::KEY_A);
    let b = with_binding(grouped("Bravo", "layout"), evdev::Key::BTN_DPAD_UP, evdev::Key::KEY_B);

    let mut entries = vec![wrap(a, true), wrap(b, true)];
    report_binding_conflicts(&mut entries);

    assert_eq!(warnings_of(&entries, "Bravo").len(), 1);
}

// ── Resolve cache ─────────────────────────────────────────────────────────────
//
// resolve() memoises its answer because it runs on every key press. That is only
// safe while every input change drops the memo, so each test here changes one
// input and asserts the *next* resolve sees it. A stale cache would be silent:
// bindings would keep working, just the old ones.

#[test]
fn resolving_twice_returns_the_same_instance() {
    let b = base("Steam Deck", &["Steam Deck"]);
    let m = with_binding(module("gestures", None, 0), evdev::Key::BTN_SOUTH, evdev::Key::KEY_A);
    let mut r = make_registry(vec![wrap(b, true), wrap(m, true)]);

    let first  = r.resolve("Steam Deck", &Client::Default, 0).unwrap();
    let second = r.resolve("Steam Deck", &Client::Default, 0).unwrap();

    // Same allocation, not merely equal — the second call did no work.
    assert!(Arc::ptr_eq(&first, &second));
}

#[test]
fn a_toggle_is_visible_to_the_next_resolve() {
    let b = base("Steam Deck", &["Steam Deck"]);
    let m = with_binding(module("gestures", None, 0), evdev::Key::BTN_SOUTH, evdev::Key::KEY_A);
    let mut r = make_registry(vec![wrap(b, true), wrap(m, true)]);

    assert!(has_binding(&r.resolve("Steam Deck", &Client::Default, 0).unwrap(),
                        evdev::Key::BTN_SOUTH, evdev::Key::KEY_A));

    assert!(r.set_enabled("gestures", false));

    assert!(!has_binding(&r.resolve("Steam Deck", &Client::Default, 0).unwrap(),
                         evdev::Key::BTN_SOUTH, evdev::Key::KEY_A));
}

#[test]
fn a_compositor_change_is_visible_to_the_next_resolve() {
    let b = base("Steam Deck", &["Steam Deck"]);
    let mut m = with_binding(module("kde only", None, 0), evdev::Key::BTN_SOUTH, evdev::Key::KEY_A);
    m.module.requires_compositor = Some("KDE".to_string());
    let mut r = make_registry(vec![wrap(b, true), wrap(m, true)]);

    r.set_compositor(Some("Hyprland".to_string()));
    assert!(!has_binding(&r.resolve("Steam Deck", &Client::Default, 0).unwrap(),
                         evdev::Key::BTN_SOUTH, evdev::Key::KEY_A));

    r.set_compositor(Some("KDE".to_string()));
    assert!(has_binding(&r.resolve("Steam Deck", &Client::Default, 0).unwrap(),
                        evdev::Key::BTN_SOUTH, evdev::Key::KEY_A));
}

#[test]
fn the_cache_distinguishes_window_class_and_layout() {
    let b = with_binding(base("Steam Deck", &["Steam Deck"]), evdev::Key::BTN_SOUTH, evdev::Key::KEY_B);
    let app = with_binding(module("konsole", Some("org.kde.konsole"), 0),
                           evdev::Key::BTN_SOUTH, evdev::Key::KEY_A);
    let mut r = make_registry(vec![wrap(b, true), wrap(app, true)]);

    // Same base, same layout — only the focused window differs. Keying the cache
    // on the base alone would serve the app override to every other window.
    let focused = r.resolve("Steam Deck", &class("org.kde.konsole"), 0).unwrap();
    let plain   = r.resolve("Steam Deck", &Client::Default, 0).unwrap();

    assert!(has_binding(&focused, evdev::Key::BTN_SOUTH, evdev::Key::KEY_A));
    assert!(has_binding(&plain,   evdev::Key::BTN_SOUTH, evdev::Key::KEY_B));
}

#[test]
fn unclaimed_window_classes_share_one_cache_entry() {
    let b = base("Steam Deck", &["Steam Deck"]);
    let app = module("konsole", Some("org.kde.konsole"), 0);
    let mut r = make_registry(vec![wrap(b, true), wrap(app, true)]);

    // Neither class is claimed by a module, so both resolve to the same config
    // as no focused window at all — and must not each occupy the cache.
    let plain   = r.resolve("Steam Deck", &Client::Default, 0).unwrap();
    let firefox = r.resolve("Steam Deck", &class("firefox"), 0).unwrap();
    let mail    = r.resolve("Steam Deck", &class("thunderbird"), 0).unwrap();
    assert!(Arc::ptr_eq(&plain, &firefox));
    assert!(Arc::ptr_eq(&plain, &mail));

    // A claimed class keeps its own entry — folding it in would hand Konsole's
    // override to every other window.
    let konsole = r.resolve("Steam Deck", &class("org.kde.konsole"), 0).unwrap();
    assert!(!Arc::ptr_eq(&plain, &konsole));

    assert_eq!(r.remembered_answers(), 2);
}
