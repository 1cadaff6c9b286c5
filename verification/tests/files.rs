use deckery::config::{Config, DeviceClass, DeviceDeclaration};
use deckery::event::{Combo, Event, Key};
use deckery::files::{
    checkout_directory, collect_aliases, config_name, is_config_file, is_watched_file,
    needs_readme, user_home, ConfigRoots, README_NAME,
};
use deckery::layers::ConfigEntry;
use deckery::preferences::{is_preferences_file, needs_seed, path_in, Preferences};
use deckery::registry::{load_entries, read_entry, ConfigRegistry};
use deckery::session::Client;

fn deck() -> Config {
    let mut c = Config::new_empty("Steam Deck".to_string());
    c.device = Some(DeviceDeclaration {
        class: DeviceClass::HidSteam,
        names: vec!["Steam Deck".to_string()],
    });
    c
}

/// The entries of a directory's files that count as configurations.
fn scanned(files: &[&str], from_user: bool) -> Vec<ConfigEntry> {
    files
        .iter()
        .filter(|f| is_config_file(f))
        .map(|f| {
            let name = config_name(f);
            let config = if name == "Steam Deck" { deck() } else { Config::new_empty(name.clone()) };
            read_entry(name, from_user, Ok(config))
        })
        .collect()
}

fn names(entries: &Vec<ConfigEntry>) -> Vec<String> {
    let mut names: Vec<String> = entries.iter().map(|e| e.name.clone()).collect();
    names.sort();
    names
}

fn named<'a>(entries: &'a Vec<ConfigEntry>, name: &str) -> &'a ConfigEntry {
    entries.iter().find(|e| e.name == name).expect("an entry of that name")
}

fn roots() -> ConfigRoots {
    ConfigRoots { system: "/system".to_string(), user: "/user".to_string() }
}

fn pair(alias: &str, target: &str) -> (String, String) {
    (alias.to_string(), target.to_string())
}

// ── Aliases ───────────────────────────────────────────────────────────────────

#[test]
fn collect_aliases_drops_entries_pointing_at_unknown_events() {
    let aliases = collect_aliases(&vec![pair("L1", "BTN_TL"), pair("Broken", "BTN_TYPO")]);
    assert_eq!(aliases.get(&"L1".to_string()).map(String::as_str), Some("BTN_TL"));
    assert!(!aliases.contains_key(&"Broken".to_string()), "alias with unknown target must be dropped");
}

#[test]
fn collect_aliases_reads_every_root_file() {
    let aliases = collect_aliases(&vec![pair("A", "BTN_SOUTH")]);
    assert_eq!(aliases.len(), 1);
    assert_eq!(aliases.get(&"A".to_string()).map(String::as_str), Some("BTN_SOUTH"));
}

#[test]
fn a_later_alias_replaces_an_earlier_one() {
    let aliases = collect_aliases(&vec![pair("L1", "BTN_TL"), pair("L1", "BTN_TR")]);
    assert_eq!(aliases.len(), 1);
    assert_eq!(aliases.get(&"L1".to_string()).map(String::as_str), Some("BTN_TR"));
}

// ── Discovery ─────────────────────────────────────────────────────────────────

#[test]
fn every_toml_in_both_roots_is_discovered_without_being_listed() {
    let mut read = scanned(&["Steam Deck.toml", "KDE Desktop.toml", "Konsole.toml"], false);
    read.append(&mut scanned(&["My Module.toml"], true));
    assert_eq!(
        names(&load_entries(read)),
        vec!["KDE Desktop", "Konsole", "My Module", "Steam Deck"]
    );
}

#[test]
fn user_file_replaces_the_system_file_of_the_same_name() {
    let gated = |compositor: &str| {
        let mut c = Config::new_empty("KDE Desktop".to_string());
        c.module.requires_compositor = Some(compositor.to_string());
        c
    };
    let entries = load_entries(vec![
        read_entry("KDE Desktop".to_string(), false, Ok(gated("KDE"))),
        read_entry("KDE Desktop".to_string(), true, Ok(gated("Hyprland"))),
    ]);
    assert_eq!(entries.len(), 1);
    let config = entries[0].config.as_ref().expect("a configuration");
    assert_eq!(config.module.requires_compositor.as_deref(), Some("Hyprland"));
}

#[test]
fn the_root_a_file_came_from_is_recorded() {
    let mut read = scanned(&["KDE Desktop.toml"], false);
    read.append(&mut scanned(&["My Module.toml", "Konsole.toml"], true));
    let entries = load_entries(read);
    assert!(!named(&entries, "KDE Desktop").from_user);
    assert!(named(&entries, "My Module").from_user);
    assert!(named(&entries, "Konsole").from_user);
}

#[test]
fn a_user_file_replacing_a_system_one_counts_as_the_users() {
    let mut read = scanned(&["KDE Desktop.toml"], false);
    read.append(&mut scanned(&["KDE Desktop.toml"], true));
    assert!(named(&load_entries(read), "KDE Desktop").from_user);
}

#[test]
fn a_missing_user_root_is_not_an_error() {
    let entries = load_entries(scanned(&["Steam Deck.toml"], false));
    assert_eq!(names(&entries), vec!["Steam Deck"]);
}

#[test]
fn preferences_toml_is_not_discovered_as_a_config() {
    let entries = load_entries(scanned(&["Steam Deck.toml", "preferences.toml"], false));
    assert_eq!(names(&entries), vec!["Steam Deck"]);
}

#[test]
fn the_readme_is_not_mistaken_for_a_config() {
    let entries = load_entries(scanned(&["Steam Deck.toml", README_NAME], false));
    assert_eq!(names(&entries), vec!["Steam Deck"]);
}

#[test]
fn a_file_that_cannot_be_read_is_kept_with_its_error() {
    let e = read_entry("Broken".to_string(), true, Err("no such key".to_string()));
    assert!(e.config.is_none());
    assert!(!e.enabled);
    assert_eq!(e.errors.len(), 1);
    assert_eq!(e.errors[0].severity, "error");
    assert!(e.errors[0].message.contains("no such key"));
}

#[test]
fn file_names_are_told_apart() {
    assert!(is_config_file("KDE Desktop.toml"));
    assert!(!is_config_file("KDE Desktop.toml.bak"));
    assert!(!is_config_file("toml"));
    assert_eq!(config_name("org.kde.konsole.toml"), "org.kde.konsole");
    assert!(is_watched_file("Steam Deck.toml"));
    assert!(!is_watched_file("README.md"));
}

// ── Preferences and the description ───────────────────────────────────────────

#[test]
fn the_shipped_preferences_template_is_copied_on_first_start() {
    assert!(needs_seed(false, true));
    assert!(!needs_seed(false, false));
}

#[test]
fn seeding_never_overwrites_an_existing_choice() {
    assert!(!needs_seed(true, true));
    assert!(!needs_seed(true, false));
}

#[test]
fn preferences_lie_in_the_user_root() {
    assert_eq!(path_in("/home/deck/.config/deckery"), "/home/deck/.config/deckery/preferences.toml");
    assert!(is_preferences_file("preferences.toml"));
    assert!(!is_preferences_file("Preferences.toml"));
}

#[test]
fn readme_is_copied_into_a_user_root_that_does_not_exist_yet() {
    assert!(needs_readme(&Some(b"the rules".to_vec()), &None));
}

#[test]
fn readme_is_overwritten_when_it_went_stale() {
    assert!(needs_readme(&Some(b"the new rules".to_vec()), &Some(b"last year's rules".to_vec())));
}

#[test]
fn an_unchanged_readme_is_not_rewritten() {
    assert!(!needs_readme(&Some(b"the rules".to_vec()), &Some(b"the rules".to_vec())));
}

#[test]
fn a_missing_shipped_readme_is_not_an_error() {
    assert!(!needs_readme(&None, &None));
    assert!(!needs_readme(&None, &Some(b"the rules".to_vec())));
}

// ── Restarts and reloads ──────────────────────────────────────────────────────

fn layout_files() -> Vec<ConfigEntry> {
    ["Layout Alpha", "Layout Bravo"]
        .iter()
        .map(|name| {
            let mut c = Config::new_empty(name.to_string());
            c.module.exclusive_group = Some("layout".to_string());
            read_entry(name.to_string(), false, Ok(c))
        })
        .collect()
}

#[test]
fn a_group_choice_survives_a_restart() {
    let mut first = ConfigRegistry::load(roots(), layout_files(), Preferences::default());
    assert!(first.set_enabled("Layout Bravo", true));

    let second = ConfigRegistry::load(roots(), layout_files(), first.preferences().clone());
    assert!(named(second.entries(), "Layout Bravo").enabled);
    assert!(!named(second.entries(), "Layout Alpha").enabled);
}

#[test]
fn a_switched_off_group_survives_a_restart_and_comes_back() {
    let mut first = ConfigRegistry::load(roots(), layout_files(), Preferences::default());
    assert!(first.set_enabled("Layout Bravo", true));
    assert!(first.set_group_enabled("layout", false));
    assert!(first.entries().iter().all(|e| !e.enabled));

    let mut second = ConfigRegistry::load(roots(), layout_files(), first.preferences().clone());
    assert!(second.entries().iter().all(|e| !e.enabled));
    assert!(second.set_group_enabled("layout", true));
    assert!(named(second.entries(), "Layout Bravo").enabled);
    assert!(!named(second.entries(), "Layout Alpha").enabled);
}

#[test]
fn a_restart_finds_what_was_switched() {
    let files = || {
        let mut files = layout_files();
        for name in ["one", "two"] {
            files.push(read_entry(name.to_string(), false, Ok(Config::new_empty(name.to_string()))));
        }
        files
    };
    let states = |r: &ConfigRegistry| -> Vec<(String, bool)> {
        r.entries().iter().map(|e| (e.name.clone(), e.enabled)).collect()
    };
    let mut r = ConfigRegistry::load(roots(), files(), Preferences::default());
    for (name, enabled) in [("two", false), ("Layout Bravo", true), ("Layout Bravo", false)] {
        assert!(r.set_enabled(name, enabled));
        let again = ConfigRegistry::load(roots(), files(), r.preferences().clone());
        assert_eq!(states(&again), states(&r));
    }
    assert!(r.set_group_enabled("layout", true));
    let again = ConfigRegistry::load(roots(), files(), r.preferences().clone());
    assert_eq!(states(&again), states(&r));
    assert!(!named(r.entries(), "two").enabled);
    assert!(named(r.entries(), "Layout Bravo").enabled);
}

#[test]
fn a_reload_is_visible_to_the_next_resolve() {
    let south = Combo::plain(Event::Key(Key(evdev::Key::BTN_SOUTH.code())));
    let files = |output: evdev::Key| {
        let mut gestures = Config::new_empty("gestures".to_string());
        gestures.bindings.remap.insert(south.clone(), vec![Key(output.code())]);
        vec![
            read_entry("Steam Deck".to_string(), false, Ok(deck())),
            read_entry("gestures".to_string(), false, Ok(gestures)),
        ]
    };
    let mut r = ConfigRegistry::load(roots(), files(evdev::Key::KEY_A), Preferences::default());
    let before = r.resolve("Steam Deck", &Client::Default, 0).expect("a configuration");
    assert_eq!(before.bindings.remap.get(&south), Some(&vec![Key(evdev::Key::KEY_A.code())]));

    r.reload(files(evdev::Key::KEY_B), Preferences::default());
    let after = r.resolve("Steam Deck", &Client::Default, 0).expect("a configuration");
    assert_eq!(after.bindings.remap.get(&south), Some(&vec![Key(evdev::Key::KEY_B.code())]));
}

#[test]
fn a_layout_without_a_configuration_is_passed_over() {
    let mut second = Config::new_empty("second".to_string());
    second.module.layout = 2;
    let mut r = ConfigRegistry::from_entries(vec![
        read_entry("Steam Deck".to_string(), false, Ok(deck())),
        read_entry("second".to_string(), false, Ok(second)),
    ]);
    assert_eq!(r.layouts("Steam Deck", &Client::Default), [true, false, true, false]);
    let at = |r: &mut ConfigRegistry, layout: u16| {
        r.update_config("Steam Deck", &Client::Default, layout).map(|(l, _)| l)
    };
    assert_eq!(at(&mut r, 0), Some(0));
    assert_eq!(at(&mut r, 1), Some(2));
    assert_eq!(at(&mut r, 2), Some(2));
    assert_eq!(at(&mut r, 3), Some(0));
    assert_eq!(r.update_config("Unknown", &Client::Default, 0), None);
}

#[test]
fn what_a_switched_off_module_holds_does_not_matter() {
    let south = Combo::plain(Event::Key(Key(evdev::Key::BTN_SOUTH.code())));
    let with = |output: evdev::Key| {
        let mut gestures = Config::new_empty("gestures".to_string());
        gestures.bindings.remap.insert(south.clone(), vec![Key(output.code())]);
        let mut idle = read_entry("gestures".to_string(), false, Ok(gestures));
        idle.enabled = false;
        let mut r = ConfigRegistry::from_entries(vec![
            read_entry("Steam Deck".to_string(), false, Ok(deck())),
            idle,
        ]);
        r.resolve("Steam Deck", &Client::Default, 0).expect("a configuration")
    };
    assert_eq!(with(evdev::Key::KEY_A), with(evdev::Key::KEY_B));
    assert!(!with(evdev::Key::KEY_A).bindings.remap.contains_key(&south));
}

// ── Roots ─────────────────────────────────────────────────────────────────────

#[test]
fn roots_follow_the_variables() {
    let home = "/home/deck";
    let plain = ConfigRoots::resolve(home, &None, &None, &None, false);
    let checkout = ConfigRoots::resolve(home, &None, &None, &None, true);
    assert_eq!(checkout.system, checkout_directory(home));
    assert_ne!(plain.system, checkout.system);
    let some = |s: &str| Some(s.to_string());
    let given = ConfigRoots::resolve(home, &some("/a"), &some("/b"), &some("/c"), true);
    assert_eq!(given.user, "/a");
    assert_eq!(given.system, "/c");
    assert_eq!(ConfigRoots::resolve(home, &None, &some("/b"), &None, true).user, "/b");
}

#[test]
fn the_home_of_the_user_behind_sudo_counts() {
    let some = |s: &str| Some(s.to_string());
    assert_eq!(user_home(&some("/home/deck"), &None), "/home/deck");
    assert_eq!(user_home(&some("/root"), &some("deck")), "/home/deck");
    assert_eq!(user_home(&some("/root"), &None), "/root");
    assert_eq!(user_home(&None, &some("deck")), "/root");
}
