use deckery::config::{Bindings, Config, GamingModeConfig, DoubleclickTrigger};
use deckery::event::{Combo, Event, Key};
use deckery::state_export::{
    build_configs_json, build_state, exports_analog_state, modifier_sort_key, ActionValue, BindingEntry, BindingKind,
    ConfigInfo, LastAction, State,
};

fn code(k: evdev::Key) -> Key {
    Key(k.code())
}

fn key(k: Key) -> Event {
    Event::Key(k)
}

/// Build a minimal Config with the given bindings and custom modifiers.
fn make_config(
    remap: Vec<(Event, Vec<Event>, Vec<Key>)>,
    commands: Vec<(Event, Vec<Event>, Vec<String>)>,
    custom_modifiers: Vec<Event>,
) -> Config {
    let mut config = Config::new_empty("test".to_string());
    for (trigger, combo, keys) in remap {
        config.bindings.remap.insert(Combo::new(trigger, combo), keys);
    }
    for (trigger, combo, cmds) in commands {
        config.bindings.commands.insert(Combo::new(trigger, combo), cmds);
    }
    config.mapped_modifiers.all = custom_modifiers.clone();
    config.mapped_modifiers.custom = custom_modifiers;
    config
}

/// A base configuration that runs a command on BTN_TL-BTN_DPAD_UP.
fn desktop_base(label: Option<&str>) -> Config {
    let btn_tl = key(code(evdev::Key::BTN_TL));
    let btn_up = key(code(evdev::Key::BTN_DPAD_UP));
    let mut base = make_config(
        vec![],
        vec![(btn_up, vec![btn_tl], vec!["previous-desktop".to_string()])],
        vec![btn_tl],
    );
    base.name = "Steam Deck".to_string();
    if let Some(label) = label {
        base.bindings.labels.insert(Combo::new(btn_up, vec![btn_tl]), label.to_string());
    }
    base
}

/// An application's configuration that sends keys on BTN_TL-BTN_DPAD_UP.
fn reload_override(label: Option<&str>) -> Config {
    let btn_tl = key(code(evdev::Key::BTN_TL));
    let btn_up = key(code(evdev::Key::BTN_DPAD_UP));
    let mut app = make_config(
        vec![(btn_up, vec![btn_tl], vec![code(evdev::Key::KEY_LEFTCTRL), code(evdev::Key::KEY_R)])],
        vec![],
        vec![],
    );
    app.name = "firefox".to_string();
    if let Some(label) = label {
        app.bindings.labels.insert(Combo::new(btn_up, vec![btn_tl]), label.to_string());
    }
    app
}

fn snapshot(
    config: &Config,
    modifiers: &[Event],
    layout: u16,
    paused: bool,
    gaming_mode: bool,
    held_keys: &[Event],
    last_action: &Option<LastAction>,
    config_stack: &[String],
) -> State {
    build_state(
        config,
        &modifiers.to_vec(),
        layout,
        paused,
        gaming_mode,
        &held_keys.to_vec(),
        last_action,
        &config_stack.to_vec(),
        &GamingModeConfig::default(),
    )
}

fn layered_snapshot(app: &Config) -> State {
    snapshot(
        app,
        &[key(code(evdev::Key::BTN_TL))],
        0,
        false,
        false,
        &[],
        &None,
        &["Steam Deck".to_string(), "firefox".to_string()],
    )
}

fn binding<'a>(state: &'a State, combo: &str) -> &'a BindingEntry {
    state.bindings.get(&combo.to_string()).expect("a binding of that name")
}

fn held_combo<'a>(state: &'a State, trigger: &str) -> &'a BindingEntry {
    state.modifier_active.get(&trigger.to_string()).expect("a combo of that trigger")
}

fn active_outputs(state: &State) -> Vec<String> {
    state.context.active_outputs.iter().map(|o| o.key.clone()).collect()
}

/// (key, silent) pairs of the active outputs.
fn active_outputs_tagged(state: &State) -> Vec<(String, bool)> {
    state.context.active_outputs.iter().map(|o| (o.key.clone(), o.silent)).collect()
}

fn available_modifiers(state: &State) -> Vec<String> {
    state.context.available_modifiers.iter().map(|m| m.name.clone()).collect()
}

fn modifier_active_keys(state: &State) -> Vec<String> {
    (0..state.modifier_active.len()).map(|i| state.modifier_active.key_at(i).clone()).collect()
}

// ── active_outputs ────────────────────────────────────────────────────────

#[test]
fn active_outputs_base_remap() {
    // BTN_SOUTH → KEY_ENTER, no modifiers held.
    let config = make_config(
        vec![(key(code(evdev::Key::BTN_SOUTH)), vec![], vec![code(evdev::Key::KEY_ENTER)])],
        vec![], vec![],
    );
    let state = snapshot(&config, &[], 0, false, false, &[key(code(evdev::Key::BTN_SOUTH))], &None, &["test".to_string()]);
    assert_eq!(active_outputs(&state), vec!["KEY_ENTER"]);
}

#[test]
fn active_outputs_combo_remap() {
    // BTN_TL-BTN_NORTH → [KEY_LEFTCTRL, KEY_C]. BTN_TL held as modifier.
    let btn_tl = key(code(evdev::Key::BTN_TL));
    let btn_north = key(code(evdev::Key::BTN_NORTH));
    let config = make_config(
        vec![(btn_north, vec![btn_tl], vec![code(evdev::Key::KEY_LEFTCTRL), code(evdev::Key::KEY_C)])],
        vec![], vec![btn_tl],
    );
    // modifiers = [BTN_TL], held_keys = [BTN_NORTH]
    let state = snapshot(&config, &[btn_tl], 0, false, false, &[btn_north], &None, &["test".to_string()]);
    // KEY_LEFTCTRL sorts before KEY_C
    assert_eq!(active_outputs(&state), vec!["KEY_LEFTCTRL", "KEY_C"]);
}

#[test]
fn active_outputs_fallback_remap() {
    // BTN_SOUTH has base remap KEY_ENTER but no BTN_TL combo.
    // Holding BTN_TL should fall back to KEY_ENTER (the Ctrl+Enter scenario).
    let btn_tl = key(code(evdev::Key::BTN_TL));
    let btn_south = key(code(evdev::Key::BTN_SOUTH));
    let config = make_config(
        vec![(btn_south, vec![], vec![code(evdev::Key::KEY_ENTER)])],
        vec![], vec![btn_tl],
    );
    let state = snapshot(&config, &[btn_tl], 0, false, false, &[btn_south], &None, &["test".to_string()]);
    assert_eq!(active_outputs(&state), vec!["KEY_ENTER"]);
}

#[test]
fn active_outputs_command_suppresses_remap() {
    // BTN_DPAD_UP has base remap KEY_UP, but BTN_TL-BTN_DPAD_UP is a command.
    // When BTN_TL held + BTN_DPAD_UP pressed, no key output (command takes over).
    let btn_tl = key(code(evdev::Key::BTN_TL));
    let btn_dpad_up = key(code(evdev::Key::BTN_DPAD_UP));
    let config = make_config(
        vec![(btn_dpad_up, vec![], vec![code(evdev::Key::KEY_UP)])],
        vec![(btn_dpad_up, vec![btn_tl], vec!["previous-desktop".to_string()])],
        vec![btn_tl],
    );
    let state = snapshot(&config, &[btn_tl], 0, false, false, &[btn_dpad_up], &None, &["test".to_string()]);
    assert_eq!(active_outputs(&state), Vec::<String>::new());
}

#[test]
fn active_outputs_unbound_is_empty() {
    let config = make_config(vec![], vec![], vec![]);
    let state = snapshot(&config, &[], 0, false, false, &[key(code(evdev::Key::BTN_SOUTH))], &None, &["test".to_string()]);
    assert_eq!(active_outputs(&state), Vec::<String>::new());
}

// ── available_modifiers ───────────────────────────────────────────────────

#[test]
fn available_modifiers_shows_both_when_none_held() {
    // Config has BTN_TL and BTN_TR combos. With no mods held, both should appear.
    let btn_tl = key(code(evdev::Key::BTN_TL));
    let btn_tr = key(code(evdev::Key::BTN_TR));
    let btn_north = key(code(evdev::Key::BTN_NORTH));
    let config = make_config(
        vec![
            (btn_north, vec![btn_tl], vec![code(evdev::Key::KEY_LEFTCTRL), code(evdev::Key::KEY_C)]),
            (btn_north, vec![btn_tr], vec![code(evdev::Key::KEY_F5)]),
        ],
        vec![], vec![btn_tl, btn_tr],
    );
    let state = snapshot(&config, &[], 0, false, false, &[], &None, &["test".to_string()]);
    let mut avail = available_modifiers(&state);
    avail.sort();
    assert!(avail.contains(&"BTN_TL".to_string()));
    assert!(avail.contains(&"BTN_TR".to_string()));
}

#[test]
fn available_modifiers_filters_satisfied() {
    // BTN_TL held. BTN_TL-only combos are now active (satisfied).
    // BTN_TR has a BTN_TL-BTN_TR combo → should still appear as available.
    let btn_tl = key(code(evdev::Key::BTN_TL));
    let btn_tr = key(code(evdev::Key::BTN_TR));
    let btn_north = key(code(evdev::Key::BTN_NORTH));
    let btn_south = key(code(evdev::Key::BTN_SOUTH));
    let config = make_config(
        vec![
            (btn_north, vec![btn_tl], vec![code(evdev::Key::KEY_LEFTCTRL), code(evdev::Key::KEY_C)]),
            (btn_south, vec![btn_tl, btn_tr], vec![code(evdev::Key::KEY_F1)]),
        ],
        vec![], vec![btn_tl, btn_tr],
    );
    // BTN_TL is active_input_mod → filtered out of available_modifiers.
    // BTN_TR qualifies because BTN_TL-BTN_TR-BTN_SOUTH exists and BTN_TL ⊆ that combo.
    let state = snapshot(&config, &[btn_tl], 0, false, false, &[], &None, &["test".to_string()]);
    let avail = available_modifiers(&state);
    assert!(!avail.contains(&"BTN_TL".to_string()), "BTN_TL is already active");
    assert!(avail.contains(&"BTN_TR".to_string()), "BTN_TR unlocks a BTN_TL+BTN_TR combo");
}

// ── modifier_active ───────────────────────────────────────────────────────

#[test]
fn modifier_active_exact_match_only() {
    // BTN_TL held. Should show BTN_TL combos but NOT BTN_TL-BTN_TR combos.
    let btn_tl = key(code(evdev::Key::BTN_TL));
    let btn_tr = key(code(evdev::Key::BTN_TR));
    let btn_north = key(code(evdev::Key::BTN_NORTH));
    let btn_south = key(code(evdev::Key::BTN_SOUTH));
    let config = make_config(
        vec![
            (btn_north, vec![btn_tl], vec![code(evdev::Key::KEY_LEFTCTRL), code(evdev::Key::KEY_C)]),
            (btn_south, vec![btn_tl, btn_tr], vec![code(evdev::Key::KEY_F1)]),
        ],
        vec![], vec![btn_tl, btn_tr],
    );
    let state = snapshot(&config, &[btn_tl], 0, false, false, &[], &None, &["test".to_string()]);
    let keys = modifier_active_keys(&state);
    assert!(keys.contains(&"BTN_NORTH".to_string()), "BTN_TL-BTN_NORTH should appear");
    assert!(!keys.contains(&"BTN_SOUTH".to_string()), "BTN_TL-BTN_TR-BTN_SOUTH must not leak in");
}

#[test]
fn modifier_active_includes_commands() {
    // Commands under a modifier should appear in modifier_active, not just remaps.
    let btn_tl = key(code(evdev::Key::BTN_TL));
    let btn_dpad_up = key(code(evdev::Key::BTN_DPAD_UP));
    let config = make_config(
        vec![],
        vec![(btn_dpad_up, vec![btn_tl], vec!["previous-desktop".to_string()])],
        vec![btn_tl],
    );
    let state = snapshot(&config, &[btn_tl], 0, false, false, &[], &None, &["test".to_string()]);
    let keys = modifier_active_keys(&state);
    assert!(keys.contains(&"BTN_DPAD_UP".to_string()));
    assert_eq!(
        held_combo(&state, "BTN_DPAD_UP").kind,
        BindingKind::Command
    );
}

#[test]
fn modifier_active_label_propagated() {
    // label set on a combo binding should appear in modifier_active.
    let btn_tl = key(code(evdev::Key::BTN_TL));
    let btn_north = key(code(evdev::Key::BTN_NORTH));
    let mut config = make_config(
        vec![(btn_north, vec![btn_tl], vec![code(evdev::Key::KEY_LEFTCTRL), code(evdev::Key::KEY_C)])],
        vec![], vec![btn_tl],
    );
    config.bindings.labels.insert(Combo::new(btn_north, vec![btn_tl]), "Copy".to_string());
    let state = snapshot(&config, &[btn_tl], 0, false, false, &[], &None, &["test".to_string()]);
    assert_eq!(
        held_combo(&state, "BTN_NORTH").label.as_deref(),
        Some("Copy")
    );
}

// ── silent attribute ──────────────────────────────────────────────────────

#[test]
fn silent_binding_tagged_in_active_outputs() {
    // BTN_SOUTH → BTN_LEFT, marked silent.
    // active_outputs must include BTN_LEFT but with silent=true.
    let btn_south = key(code(evdev::Key::BTN_SOUTH));
    let mut config = make_config(
        vec![(btn_south, vec![], vec![code(evdev::Key::BTN_LEFT)])],
        vec![], vec![],
    );
    config.bindings.silent.insert(Combo::new(btn_south, vec![]), ());
    let state = snapshot(&config, &[], 0, false, false, &[btn_south], &None, &["test".to_string()]);
    let tagged = active_outputs_tagged(&state);
    assert_eq!(tagged, vec![("BTN_LEFT".to_string(), true)],
        "silent binding must appear in active_outputs with silent=true");
}

#[test]
fn silent_combo_tagged_in_active_outputs() {
    // BTN_TL-BTN_SOUTH → BTN_LEFT, marked silent.
    // active_outputs includes BTN_LEFT tagged silent=true.
    let btn_tl = key(code(evdev::Key::BTN_TL));
    let btn_south = key(code(evdev::Key::BTN_SOUTH));
    let mut config = make_config(
        vec![(btn_south, vec![btn_tl], vec![code(evdev::Key::BTN_LEFT)])],
        vec![], vec![btn_tl],
    );
    config.bindings.silent.insert(Combo::new(btn_south, vec![btn_tl]), ());
    let state = snapshot(&config, &[btn_tl], 0, false, false, &[btn_south], &None, &["test".to_string()]);
    let tagged = active_outputs_tagged(&state);
    assert_eq!(tagged, vec![("BTN_LEFT".to_string(), true)],
        "silent combo must appear in active_outputs with silent=true");
}

#[test]
fn non_silent_binding_tagged_false() {
    // A regular binding appears with silent=false.
    let btn_south = key(code(evdev::Key::BTN_SOUTH));
    let config = make_config(
        vec![(btn_south, vec![], vec![code(evdev::Key::KEY_ENTER)])],
        vec![], vec![],
    );
    let state = snapshot(&config, &[], 0, false, false, &[btn_south], &None, &["test".to_string()]);
    let tagged = active_outputs_tagged(&state);
    assert_eq!(tagged, vec![("KEY_ENTER".to_string(), false)]);
}

#[test]
fn silent_flag_in_bindings_json() {
    // silent = true must appear in the bindings JSON entry for the HUD.
    let btn_south = key(code(evdev::Key::BTN_SOUTH));
    let mut config = make_config(
        vec![(btn_south, vec![], vec![code(evdev::Key::BTN_LEFT)])],
        vec![], vec![],
    );
    config.bindings.silent.insert(Combo::new(btn_south, vec![]), ());
    let state = snapshot(&config, &[], 0, false, false, &[], &None, &["test".to_string()]);
    assert_eq!(
        binding(&state, "BTN_SOUTH").silent,
        Some(true),
        "silent flag must be present in bindings JSON"
    );
}

#[test]
fn non_silent_binding_silent_false_in_json() {
    // silent defaults to false for normal bindings.
    let btn_south = key(code(evdev::Key::BTN_SOUTH));
    let config = make_config(
        vec![(btn_south, vec![], vec![code(evdev::Key::KEY_ENTER)])],
        vec![], vec![],
    );
    let state = snapshot(&config, &[], 0, false, false, &[], &None, &["test".to_string()]);
    assert_eq!(
        binding(&state, "BTN_SOUTH").silent,
        Some(false)
    );
}

// ── bindings JSON fields ──────────────────────────────────────────────────

#[test]
fn bindings_json_no_pause_flag() {
    // no_pause = true on a command binding must appear in the bindings JSON.
    let btn_thumbl = key(code(evdev::Key::BTN_THUMBL));
    let mut config = make_config(
        vec![],
        vec![(btn_thumbl, vec![], vec!["hud-toggle".to_string()])],
        vec![],
    );
    config.bindings.no_pause.insert(Combo::new(btn_thumbl, vec![]), ());
    let state = snapshot(&config, &[], 0, false, false, &[], &None, &["test".to_string()]);
    assert_eq!(
        binding(&state, "BTN_THUMBL").no_pause,
        Some(true)
    );
}

// ── context fields ────────────────────────────────────────────────────────

#[test]
fn context_active_buttons_and_held_modifiers() {
    // active_buttons = all held input events; held_modifiers = only modifier subset.
    let btn_tl = key(code(evdev::Key::BTN_TL));
    let btn_south = key(code(evdev::Key::BTN_SOUTH));
    let config = make_config(
        vec![(btn_south, vec![], vec![code(evdev::Key::KEY_ENTER)])],
        vec![], vec![btn_tl],
    );
    // BTN_TL is in modifiers (held modifier); BTN_SOUTH is in held_keys.
    let state = snapshot(
        &config,
        &[btn_tl],
        0, false, false,
        &[btn_tl, btn_south],
        &None,
        &["test".to_string()],
    );
    let active_btns = &state.context.active_buttons;
    let held_mods = &state.context.held_modifiers;
    assert!(active_btns.contains(&"BTN_TL".to_string()));
    assert!(active_btns.contains(&"BTN_SOUTH".to_string()));
    assert!(held_mods.contains(&"BTN_TL".to_string()));
    assert!(!held_mods.contains(&"BTN_SOUTH".to_string()), "BTN_SOUTH is not a modifier");
}

// ── active_outputs: multi-modifier combo ──────────────────────────────────

#[test]
fn active_outputs_multi_modifier_combo() {
    // L1+R1+DPad_Up combo should produce its own output, not fall back to base.
    let btn_tl = key(code(evdev::Key::BTN_TL));
    let btn_tr = key(code(evdev::Key::BTN_TR));
    let btn_dpad_up = key(code(evdev::Key::BTN_DPAD_UP));
    let config = make_config(
        vec![
            (btn_dpad_up, vec![], vec![code(evdev::Key::KEY_UP)]),
            (btn_dpad_up, vec![btn_tl, btn_tr], vec![code(evdev::Key::KEY_F1)]),
        ],
        vec![], vec![btn_tl, btn_tr],
    );
    // Sort the modifier combo the same way resolve_binding expects it.
    let mut mods = vec![btn_tl, btn_tr];
    mods.sort();
    let state = snapshot(&config, &mods, 0, false, false, &[btn_dpad_up], &None, &["test".to_string()]);
    assert_eq!(active_outputs(&state), vec!["KEY_F1"]);
}

// ── indirect modifier detection ───────────────────────────────────────────

#[test]
fn indirect_modifier_match_via_output_key() {
    // BTN_TL is a custom modifier whose base remap is KEY_LEFTCTRL.
    // If modifiers contains Event::Key(KEY_LEFTCTRL) instead of BTN_TL directly,
    // BTN_TL should still be detected as an active modifier for combo resolution.
    let btn_tl = key(code(evdev::Key::BTN_TL));
    let btn_north = key(code(evdev::Key::BTN_NORTH));
    let config = make_config(
        vec![
            (btn_tl, vec![], vec![code(evdev::Key::KEY_LEFTCTRL)]),  // BTN_TL → KEY_LEFTCTRL
            (btn_north, vec![btn_tl], vec![code(evdev::Key::KEY_LEFTCTRL), code(evdev::Key::KEY_C)]),
        ],
        vec![], vec![btn_tl],
    );
    // modifiers contains KEY_LEFTCTRL (the output key), not BTN_TL
    let state = snapshot(
        &config,
        &[Event::Key(code(evdev::Key::KEY_LEFTCTRL))],
        0, false, false, &[], &None, &["test".to_string()],
    );
    // BTN_TL should be detected as active → modifier_active shows BTN_TL-BTN_NORTH combo
    let keys = modifier_active_keys(&state);
    assert!(keys.contains(&"BTN_NORTH".to_string()),
        "indirect modifier detection: BTN_NORTH combo should appear when KEY_LEFTCTRL held");
}

// ── override: command→remap type change doesn't leak base command ─────────

#[test]
fn override_remap_hides_base_command() {
    // Base: BTN_TL-BTN_DPAD_UP = command "previous-desktop"
    // Override (firefox): BTN_TL-BTN_DPAD_UP = remap [KEY_LEFTCTRL, KEY_R]
    //
    // After merge_base(), modifier_active must show the remap, NOT the command.
    let base = desktop_base(None);
    let mut app = reload_override(None);
    app.merge_base(&base);

    let state = layered_snapshot(&app);
    assert_eq!(
        held_combo(&state, "BTN_DPAD_UP").kind,
        BindingKind::Remap,
        "modifier_active must show the override remap, not the inherited command"
    );
    assert_eq!(held_combo(&state, "BTN_DPAD_UP").action[0], "KEY_LEFTCTRL");
}

// ── label lifecycle across merge ─────────────────────────────────────────

/// When an override replaces a binding, the base label must not appear —
/// "Previous Desktop" should not label a Reload action.
#[test]
fn override_clears_base_label() {
    let base = desktop_base(Some("Previous Desktop"));
    let mut app = reload_override(None);
    app.merge_base(&base);

    let state = layered_snapshot(&app);
    assert!(
        held_combo(&state, "BTN_DPAD_UP").label.is_none(),
        "stale base label must not appear after action is overridden"
    );
}

/// When an override defines its own label, it appears in place of the base label.
#[test]
fn override_label_replaces_base_label() {
    let base = desktop_base(Some("Previous Desktop"));
    let mut app = reload_override(Some("Reload"));
    app.merge_base(&base);

    let state = layered_snapshot(&app);
    assert_eq!(
        held_combo(&state, "BTN_DPAD_UP").label.as_deref(),
        Some("Reload"),
        "override label must appear in modifier_active"
    );
}

// ── origin: base config vs. app-specific override ─────────────────────────

#[test]
fn origin_override_vs_base() {
    // A Firefox app config layered on top of a Steam Deck base config.
    // Inherited bindings get origin="Steam Deck"; overridden ones get origin="firefox".
    let btn_south = key(code(evdev::Key::BTN_SOUTH));
    let btn_tl = key(code(evdev::Key::BTN_TL));
    let btn_dpad_up = key(code(evdev::Key::BTN_DPAD_UP));
    let alt_left = vec![code(evdev::Key::KEY_LEFTALT), code(evdev::Key::KEY_LEFT)];

    let mut config = make_config(
        vec![
            (btn_south, vec![], vec![code(evdev::Key::KEY_ENTER)]),
            (btn_dpad_up, vec![btn_tl], alt_left.clone()),
        ],
        vec![],
        vec![btn_tl],
    );
    config.name = "firefox".to_string();
    let mut own = Bindings::default();
    own.remap.insert(Combo::new(btn_dpad_up, vec![btn_tl]), alt_left);
    config.override_bindings = Some(own);

    let state = snapshot(
        &config, &[], 0, false, false, &[], &None,
        &["Steam Deck".to_string(), "firefox".to_string()],
    );

    assert_eq!(
        binding(&state, "BTN_SOUTH").origin,
        "Steam Deck",
        "inherited binding should come from base config"
    );
    assert_eq!(
        binding(&state, "BTN_TL-BTN_DPAD_UP").origin,
        "firefox",
        "overridden binding should come from app config"
    );
}

// ── paused / gaming_mode independence ─────────────────────────────────────
//
// The two flags are orthogonal: each can be true or false independently.
// These tests guard against accidental coupling in build_state (e.g. one
// flag leaking into the other's JSON field, or both flags sharing a single
// bool).

fn ctx_flags(paused: bool, gaming_mode: bool) -> (bool, bool) {
    let config = make_config(vec![], vec![], vec![]);
    let state = snapshot(&config, &[], 0, paused, gaming_mode, &[], &None, &["test".to_string()]);
    let p = state.context.paused;
    let g = state.context.gaming_mode;
    (p, g)
}

/// Neither flag active — both false in context.
#[test]
fn flags_both_false() {
    assert_eq!(ctx_flags(false, false), (false, false));
}

/// Only paused — gaming_mode stays false.
#[test]
fn paused_only_gaming_mode_unaffected() {
    assert_eq!(ctx_flags(true, false), (true, false));
}

/// Only gaming_mode — paused stays false.
#[test]
fn gaming_mode_only_paused_unaffected() {
    assert_eq!(ctx_flags(false, true), (false, true));
}

/// Both active simultaneously — both appear true in context.
#[test]
fn both_flags_simultaneously() {
    assert_eq!(ctx_flags(true, true), (true, true));
}

/// Clearing gaming_mode while paused leaves paused true.
#[test]
fn clear_gaming_mode_while_paused() {
    // paused=true, gaming_mode=false (gaming_mode was cleared)
    assert_eq!(ctx_flags(true, false), (true, false));
}

/// Clearing paused while gaming_mode is active leaves gaming_mode true.
#[test]
fn clear_paused_while_gaming_mode_active() {
    // paused=false (resumed), gaming_mode=true
    assert_eq!(ctx_flags(false, true), (false, true));
}

// ── the rest of the snapshot ──────────────────────────────────────────────

#[test]
fn the_active_app_is_the_second_of_the_stack() {
    let config = make_config(vec![], vec![], vec![]);
    let base = vec!["Steam Deck".to_string()];
    let both = vec!["Steam Deck".to_string(), "firefox".to_string()];
    let plain = snapshot(&config, &[], 2, false, false, &[], &None, &base);
    let layered = snapshot(&config, &[], 2, false, false, &[], &None, &both);
    assert_eq!(plain.context.active_app, "default");
    assert_eq!(layered.context.active_app, "firefox");
    assert_eq!(layered.context.config_stack, both);
    assert_eq!(layered.context.layout, 2);
}

#[test]
fn the_last_action_is_handed_on() {
    let config = make_config(vec![], vec![], vec![]);
    let last = Some(LastAction {
        kind: "keys".to_string(),
        value: ActionValue::Keys(vec!["KEY_ENTER".to_string()]),
        ts_micros: 77,
        label: Some("Confirm".to_string()),
        silent: false,
    });
    let state = snapshot(&config, &[], 0, false, false, &[], &last, &["test".to_string()]);
    assert_eq!(state.last_action, last);
}

#[test]
fn the_gaming_mode_trigger_is_named() {
    let config = make_config(vec![], vec![], vec![]);
    let gaming = GamingModeConfig {
        trigger: Some(DoubleclickTrigger {
            key: code(evdev::Key::BTN_MODE),
            ms: 300,
        }),
        ..GamingModeConfig::default()
    };
    let state = build_state(
        &config, &vec![], 0, false, false, &vec![], &None, &vec!["test".to_string()], &gaming,
    );
    let trigger = state.gaming_mode_trigger.expect("a trigger");
    assert_eq!(trigger.key, "BTN_MODE");
    assert_eq!(trigger.label, "Gaming Mode");
}

#[test]
fn outputs_come_in_shortcut_order() {
    assert_eq!(modifier_sort_key("KEY_LEFTSHIFT").0, 3);
    assert_eq!(modifier_sort_key("KEY_A"), (4, "KEY_A".to_string()));
    let south = key(code(evdev::Key::BTN_SOUTH));
    let config = make_config(
        vec![(
            south,
            vec![],
            vec![
                code(evdev::Key::KEY_B),
                code(evdev::Key::KEY_A),
                code(evdev::Key::KEY_LEFTSHIFT),
                code(evdev::Key::KEY_LEFTCTRL),
            ],
        )],
        vec![],
        vec![],
    );
    let state = snapshot(&config, &[], 0, false, false, &[south], &None, &["test".to_string()]);
    assert_eq!(active_outputs(&state), vec!["KEY_LEFTCTRL", "KEY_LEFTSHIFT", "KEY_A", "KEY_B"]);
}

#[test]
fn modifiers_of_the_application_are_marked() {
    let tl = key(code(evdev::Key::BTN_TL));
    let tr = key(code(evdev::Key::BTN_TR));
    let north = key(code(evdev::Key::BTN_NORTH));
    let f5 = vec![code(evdev::Key::KEY_F5)];
    let mut config = make_config(
        vec![(north, vec![tl], f5.clone()), (north, vec![tr], f5.clone())],
        vec![],
        vec![tl, tr],
    );
    let mut own = Bindings::default();
    own.remap.insert(Combo::new(north, vec![tr]), f5);
    config.override_bindings = Some(own);
    let state = snapshot(&config, &[], 0, false, false, &[], &None, &["test".to_string()]);
    let marks: Vec<(String, bool)> =
        state.context.available_modifiers.iter().map(|m| (m.name.clone(), m.has_app_combos)).collect();
    assert_eq!(marks, vec![("BTN_TL".to_string(), false), ("BTN_TR".to_string(), true)]);
}

#[test]
fn the_active_config_is_marked() {
    let mut other = make_config(vec![], vec![], vec![]);
    other.name = "other".to_string();
    let all = vec![make_config(vec![], vec![], vec![]), other];
    assert_eq!(
        build_configs_json(&all, "other"),
        vec![
            ConfigInfo { name: "test".to_string(), active: false },
            ConfigInfo { name: "other".to_string(), active: true },
        ]
    );
}

#[test]
fn positions_are_exported_where_a_setting_says_so() {
    let mut settings = deckery::keyed::KeyedList::new();
    assert!(!exports_analog_state(&settings));
    settings.insert("ANALOG_STATE_EXPORT".to_string(), "yes".to_string());
    assert!(!exports_analog_state(&settings));
    settings.insert("ANALOG_STATE_EXPORT".to_string(), "true".to_string());
    assert!(exports_analog_state(&settings));
}
