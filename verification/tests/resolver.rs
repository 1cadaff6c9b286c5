use deckery::config::Bindings;
use deckery::event::{Combo, Event, Key, Relative, Cursor};
use deckery::resolver::{resolve_binding, ResolvedBinding};

fn key_event(k: Key) -> Event {
    Event::Key(k)
}

fn make_bindings(
    remap: Vec<(Event, Vec<Event>, Vec<Key>)>,
    commands: Vec<(Event, Vec<Event>, Vec<String>)>,
    no_pause: Vec<(Event, Vec<Event>)>,
    labels: Vec<((Event, Vec<Event>), String)>,
) -> Bindings {
    let mut b = Bindings::default();
    for (trigger, combo, keys) in remap {
        b.remap.insert(Combo::new(trigger, combo), keys);
    }
    for (trigger, combo, cmds) in commands {
        b.commands.insert(Combo::new(trigger, combo), cmds);
    }
    for (trigger, combo) in no_pause {
        b.no_pause.insert(Combo::new(trigger, combo), ());
    }
    for ((trigger, combo), label) in labels {
        b.labels.insert(Combo::new(trigger, combo), label);
    }
    b
}

// ── Basic remap ───────────────────────────────────────────────────────────

#[test]
fn base_remap_no_modifiers() {
    let btn_south = key_event(Key(evdev::Key::BTN_SOUTH.code()));
    let bindings = make_bindings(
        vec![(btn_south, vec![], vec![Key(evdev::Key::KEY_ENTER.code())])],
        vec![], vec![], vec![],
    );
    let result = resolve_binding(&bindings, btn_south, &vec![], false);
    assert_eq!(result, ResolvedBinding::Keys {
        keys: vec![Key(evdev::Key::KEY_ENTER.code())],
        label: None,
        no_pause: false,
        while_gaming: false,
        silent: false,
        is_combo: false,
        is_fallback: false,
    });
}

// ── Explicit combo ────────────────────────────────────────────────────────

#[test]
fn explicit_combo_remap() {
    let btn_north = key_event(Key(evdev::Key::BTN_NORTH.code()));
    let btn_tl = key_event(Key(evdev::Key::BTN_TL.code()));
    let bindings = make_bindings(
        vec![(btn_north, vec![btn_tl], vec![Key(evdev::Key::KEY_LEFTCTRL.code()), Key(evdev::Key::KEY_C.code())])],
        vec![], vec![], vec![],
    );
    let result = resolve_binding(&bindings, btn_north, &vec![btn_tl], false);
    assert_eq!(result, ResolvedBinding::Keys {
        keys: vec![Key(evdev::Key::KEY_LEFTCTRL.code()), Key(evdev::Key::KEY_C.code())],
        label: None,
        no_pause: false,
        while_gaming: false,
        silent: false,
        is_combo: true,
        is_fallback: false,
    });
}

// ── Fallback: modifier held, no combo defined ─────────────────────────────

#[test]
fn fallback_remap_keeps_modifier_held() {
    let btn_south = key_event(Key(evdev::Key::BTN_SOUTH.code()));
    let btn_tl = key_event(Key(evdev::Key::BTN_TL.code()));
    // Only base remap defined, no BTN_TL-BTN_SOUTH combo.
    let bindings = make_bindings(
        vec![(btn_south, vec![], vec![Key(evdev::Key::KEY_ENTER.code())])],
        vec![], vec![], vec![],
    );
    let result = resolve_binding(&bindings, btn_south, &vec![btn_tl], false);
    // Should fall back to base binding, is_fallback=true so caller keeps
    // held modifier output keys held (e.g. KEY_LEFTCTRL stays held → Ctrl+Enter).
    assert_eq!(result, ResolvedBinding::Keys {
        keys: vec![Key(evdev::Key::KEY_ENTER.code())],
        label: None,
        no_pause: false,
        while_gaming: false,
        silent: false,
        is_combo: false,
        is_fallback: true,
    });
}

// ── Combo takes priority over fallback ────────────────────────────────────

#[test]
fn combo_takes_priority_over_base() {
    let btn_north = key_event(Key(evdev::Key::BTN_NORTH.code()));
    let btn_tl = key_event(Key(evdev::Key::BTN_TL.code()));
    let bindings = make_bindings(
        vec![
            (btn_north, vec![], vec![Key(evdev::Key::KEY_BACKSPACE.code())]),
            (btn_north, vec![btn_tl], vec![Key(evdev::Key::KEY_LEFTCTRL.code()), Key(evdev::Key::KEY_C.code())]),
        ],
        vec![], vec![], vec![],
    );
    let result = resolve_binding(&bindings, btn_north, &vec![btn_tl], false);
    assert_eq!(result, ResolvedBinding::Keys {
        keys: vec![Key(evdev::Key::KEY_LEFTCTRL.code()), Key(evdev::Key::KEY_C.code())],
        label: None,
        no_pause: false,
        while_gaming: false,
        silent: false,
        is_combo: true,
        is_fallback: false,
    });
}

// ── no_pause ──────────────────────────────────────────────────────────────

#[test]
fn no_pause_remap_flagged() {
    let btn_tl2 = key_event(Key(evdev::Key::BTN_TL2.code()));
    let bindings = make_bindings(
        vec![(btn_tl2, vec![], vec![Key(evdev::Key::BTN_RIGHT.code())])],
        vec![],
        vec![(btn_tl2, vec![])],
        vec![],
    );
    let result = resolve_binding(&bindings, btn_tl2, &vec![], false);
    match result {
        ResolvedBinding::Keys { no_pause, .. } => assert!(no_pause),
        _ => panic!("expected Keys"),
    }
}

#[test]
fn no_pause_command_flagged() {
    let btn_thumbl = key_event(Key(evdev::Key::BTN_THUMBL.code()));
    let bindings = make_bindings(
        vec![],
        vec![(btn_thumbl, vec![], vec!["deckery-hud-toggle".to_string()])],
        vec![(btn_thumbl, vec![])],
        vec![],
    );
    let result = resolve_binding(&bindings, btn_thumbl, &vec![], false);
    match result {
        ResolvedBinding::Command { no_pause, .. } => assert!(no_pause),
        _ => panic!("expected Command"),
    }
}

// ── while_gaming ──────────────────────────────────────────────────────────

/// A remap with `while_gaming` in bindings.while_gaming must report
/// `while_gaming: true` in the resolved binding.
#[test]
fn while_gaming_remap_flagged() {
    let btn_south = key_event(Key(evdev::Key::BTN_SOUTH.code()));
    let mut bindings = make_bindings(
        vec![(btn_south, vec![], vec![Key(evdev::Key::KEY_ENTER.code())])],
        vec![], vec![], vec![],
    );
    bindings.while_gaming.insert(Combo::new(btn_south, vec![]), ());
    let result = resolve_binding(&bindings, btn_south, &vec![], false);
    match result {
        ResolvedBinding::Keys { while_gaming, .. } => {
            assert!(while_gaming, "while_gaming must be true for a flagged remap")
        }
        _ => panic!("expected Keys"),
    }
}

/// A remap *without* `while_gaming` must report `while_gaming: false`.
#[test]
fn while_gaming_remap_not_flagged() {
    let btn_south = key_event(Key(evdev::Key::BTN_SOUTH.code()));
    let bindings = make_bindings(
        vec![(btn_south, vec![], vec![Key(evdev::Key::KEY_ENTER.code())])],
        vec![], vec![], vec![],
    );
    let result = resolve_binding(&bindings, btn_south, &vec![], false);
    match result {
        ResolvedBinding::Keys { while_gaming, .. } => {
            assert!(!while_gaming, "while_gaming must be false for a non-flagged remap")
        }
        _ => panic!("expected Keys"),
    }
}

/// A command with `while_gaming` in bindings.while_gaming must report
/// `while_gaming: true` in the resolved binding.
#[test]
fn while_gaming_command_flagged() {
    let btn_thumbl = key_event(Key(evdev::Key::BTN_THUMBL.code()));
    let mut bindings = make_bindings(
        vec![],
        vec![(btn_thumbl, vec![], vec!["deckery-hud-toggle".to_string()])],
        vec![], vec![],
    );
    bindings.while_gaming.insert(Combo::new(btn_thumbl, vec![]), ());
    let result = resolve_binding(&bindings, btn_thumbl, &vec![], false);
    match result {
        ResolvedBinding::Command { while_gaming, .. } => {
            assert!(while_gaming, "while_gaming must be true for a flagged command")
        }
        _ => panic!("expected Command"),
    }
}

/// A combo binding with `while_gaming` on the base (no-modifier) entry must
/// still be flagged when resolved with modifiers held, because the resolver
/// checks both the combo-specific entry *and* the base (no-modifier) entry.
#[test]
fn while_gaming_base_entry_applies_to_combo_match() {
    let btn_south = key_event(Key(evdev::Key::BTN_SOUTH.code()));
    let btn_tl    = key_event(Key(evdev::Key::BTN_TL.code()));
    let mut bindings = make_bindings(
        vec![
            (btn_south, vec![],         vec![Key(evdev::Key::KEY_ENTER.code())]),
            (btn_south, vec![btn_tl],   vec![Key(evdev::Key::KEY_SPACE.code())]),
        ],
        vec![], vec![], vec![],
    );
    // Flag the base (no-modifier) entry — the resolver's while_gaming
    // check uses `contains(_, vec![])` as a fallback, so the combo
    // resolution must also pick this up.
    bindings.while_gaming.insert(Combo::new(btn_south, vec![]), ());
    let result = resolve_binding(&bindings, btn_south, &vec![btn_tl], false);
    match result {
        ResolvedBinding::Keys { while_gaming, is_combo, .. } => {
            assert!(is_combo, "should be resolved as combo");
            assert!(while_gaming, "while_gaming fallback from base entry must apply to combo");
        }
        _ => panic!("expected Keys"),
    }
}

// ── label ─────────────────────────────────────────────────────────────────

#[test]
fn label_propagated() {
    let btn_thumbl = key_event(Key(evdev::Key::BTN_THUMBL.code()));
    let bindings = make_bindings(
        vec![],
        vec![(btn_thumbl, vec![], vec!["deckery-hud-toggle".to_string()])],
        vec![],
        vec![((btn_thumbl, vec![]), "Toggle HUD".to_string())],
    );
    let result = resolve_binding(&bindings, btn_thumbl, &vec![], false);
    match result {
        ResolvedBinding::Command { label, .. } => {
            assert_eq!(label, Some("Toggle HUD".to_string()))
        }
        _ => panic!("expected Command"),
    }
}

// ── Unbound ───────────────────────────────────────────────────────────────

#[test]
fn unbound_event_returns_unbound() {
    let bindings = make_bindings(vec![], vec![], vec![], vec![]);
    let result = resolve_binding(&bindings, key_event(Key(evdev::Key::BTN_SOUTH.code())), &vec![], false);
    assert_eq!(result, ResolvedBinding::Unbound);
}

// ── Wrong modifier set → Unbound (no fallback if unrelated combo) ─────────

#[test]
fn wrong_modifier_set_no_match() {
    let btn_dpad_up = key_event(Key(evdev::Key::BTN_DPAD_UP.code()));
    let btn_tl = key_event(Key(evdev::Key::BTN_TL.code()));
    let btn_tr = key_event(Key(evdev::Key::BTN_TR.code()));
    // Only L1+R1+DPad_Up defined, not L1+DPad_Up
    let bindings = make_bindings(
        vec![(btn_dpad_up, vec![btn_tl, btn_tr], vec![Key(evdev::Key::KEY_UP.code())])],
        vec![], vec![], vec![],
    );
    // Only L1 held — should not match
    let result = resolve_binding(&bindings, btn_dpad_up, &vec![btn_tl], false);
    assert_eq!(result, ResolvedBinding::Unbound);
}

// ── Multi-modifier combo ──────────────────────────────────────────────────

#[test]
fn multi_modifier_combo() {
    let btn_tl = key_event(Key(evdev::Key::BTN_TL.code()));
    let btn_tr = key_event(Key(evdev::Key::BTN_TR.code()));
    let btn_dpad_up = key_event(Key(evdev::Key::BTN_DPAD_UP.code()));
    let bindings = make_bindings(
        vec![(btn_dpad_up, vec![btn_tl, btn_tr], vec![Key(evdev::Key::KEY_UP.code())])],
        vec![], vec![], vec![],
    );
    let result = resolve_binding(&bindings, btn_dpad_up, &vec![btn_tl, btn_tr], false);
    assert_eq!(result, ResolvedBinding::Keys {
        keys: vec![Key(evdev::Key::KEY_UP.code())],
        label: None,
        no_pause: false,
        while_gaming: false,
        silent: false,
        is_combo: true,
        is_fallback: false,
    });
}

// ── Hold binding ──────────────────────────────────────────────────────────

#[test]
fn hold_fires_when_modifier_held() {
    // Hold binding fires when at least one modifier is held (chain_only=true).
    let btn_south = key_event(Key(evdev::Key::BTN_SOUTH.code()));
    let bindings = make_bindings(
        vec![(btn_south, vec![Event::Hold], vec![Key(evdev::Key::KEY_ENTER.code())])],
        vec![], vec![], vec![],
    );
    let result = resolve_binding(&bindings, btn_south, &vec![key_event(Key(evdev::Key::BTN_TL.code()))], true);
    assert_eq!(result, ResolvedBinding::Hold { keys: vec![Key(evdev::Key::KEY_ENTER.code())] });
}

#[test]
fn hold_suppressed_chain_only_no_mods() {
    // chain_only=true + no modifiers → Hold must not fire; falls through to Unbound.
    let btn_south = key_event(Key(evdev::Key::BTN_SOUTH.code()));
    let bindings = make_bindings(
        vec![(btn_south, vec![Event::Hold], vec![Key(evdev::Key::KEY_ENTER.code())])],
        vec![], vec![], vec![],
    );
    let result = resolve_binding(&bindings, btn_south, &vec![], true);
    assert_eq!(result, ResolvedBinding::Unbound);
}

#[test]
fn hold_fires_chain_only_false_no_mods() {
    // chain_only=false → Hold fires even without modifiers.
    let btn_south = key_event(Key(evdev::Key::BTN_SOUTH.code()));
    let bindings = make_bindings(
        vec![(btn_south, vec![Event::Hold], vec![Key(evdev::Key::KEY_ENTER.code())])],
        vec![], vec![], vec![],
    );
    let result = resolve_binding(&bindings, btn_south, &vec![], false);
    assert_eq!(result, ResolvedBinding::Hold { keys: vec![Key(evdev::Key::KEY_ENTER.code())] });
}

// ── Movement binding ──────────────────────────────────────────────────────

#[test]
fn movement_base_binding() {
    let trigger = key_event(Key(evdev::Key::BTN_SOUTH.code()));
    let movement = Relative::Cursor(Cursor::CURSOR_UP);
    let mut bindings = Bindings::default();
    bindings.movements.insert(Combo::new(trigger, vec![]), movement);
    let result = resolve_binding(&bindings, trigger, &vec![], false);
    assert_eq!(result, ResolvedBinding::Movement { movement, is_combo: false });
}

#[test]
fn movement_combo() {
    let trigger = key_event(Key(evdev::Key::BTN_SOUTH.code()));
    let btn_tl = key_event(Key(evdev::Key::BTN_TL.code()));
    let movement = Relative::Cursor(Cursor::CURSOR_RIGHT);
    let mut bindings = Bindings::default();
    bindings.movements.insert(Combo::new(trigger, vec![btn_tl]), movement);
    let result = resolve_binding(&bindings, trigger, &vec![btn_tl], false);
    assert_eq!(result, ResolvedBinding::Movement { movement, is_combo: true });
}

// ── Top-level command (no remap block for this event) ─────────────────────

#[test]
fn top_level_command_no_remap_block() {
    // Event is not in bindings.remap at all — command must still be found (step 6).
    let btn_thumbl = key_event(Key(evdev::Key::BTN_THUMBL.code()));
    let bindings = make_bindings(
        vec![],  // no remap entry for btn_thumbl
        vec![(btn_thumbl, vec![], vec!["hud-toggle".to_string()])],
        vec![], vec![],
    );
    let result = resolve_binding(&bindings, btn_thumbl, &vec![], false);
    assert_eq!(result, ResolvedBinding::Command {
        commands: vec!["hud-toggle".to_string()],
        label: None,
        no_pause: false,
        while_gaming: false,
        silent: false,
        is_combo: false,
    });
}

// ── Command under remap block takes priority over base remap fallback ──────

#[test]
fn command_under_remap_beats_fallback() {
    // Event IS in bindings.remap (base mapping) AND has a combo command.
    // With the combo modifier held, the command (step 3) must win over the
    // base remap fallback (step 5).
    let btn_dpad_up = key_event(Key(evdev::Key::BTN_DPAD_UP.code()));
    let btn_tl = key_event(Key(evdev::Key::BTN_TL.code()));
    let bindings = make_bindings(
        vec![(btn_dpad_up, vec![], vec![Key(evdev::Key::KEY_UP.code())])],
        vec![(btn_dpad_up, vec![btn_tl], vec!["previous-desktop".to_string()])],
        vec![], vec![],
    );
    let result = resolve_binding(&bindings, btn_dpad_up, &vec![btn_tl], false);
    assert_eq!(result, ResolvedBinding::Command {
        commands: vec!["previous-desktop".to_string()],
        label: None,
        no_pause: false,
        while_gaming: false,
        silent: false,
        is_combo: true,
    });
}

// ── silent = true on a command ────────────────────────────────────────────

#[test]
fn silent_command_resolved_with_silent_true() {
    let btn_thumbl = key_event(Key(evdev::Key::BTN_THUMBL.code()));
    let mut bindings = make_bindings(
        vec![],
        vec![(btn_thumbl, vec![], vec!["hud-toggle".to_string()])],
        vec![], vec![],
    );
    bindings.silent.insert(Combo::new(btn_thumbl, vec![]), ());
    let result = resolve_binding(&bindings, btn_thumbl, &vec![], false);
    assert_eq!(result, ResolvedBinding::Command {
        commands: vec!["hud-toggle".to_string()],
        label: None,
        no_pause: false,
        while_gaming: false,
        silent: true,
        is_combo: false,
    });
}

#[test]
fn non_silent_command_resolved_with_silent_false() {
    let btn_thumbl = key_event(Key(evdev::Key::BTN_THUMBL.code()));
    let bindings = make_bindings(
        vec![],
        vec![(btn_thumbl, vec![], vec!["hud-toggle".to_string()])],
        vec![], vec![],
    );
    let result = resolve_binding(&bindings, btn_thumbl, &vec![], false);
    assert_eq!(result, ResolvedBinding::Command {
        commands: vec!["hud-toggle".to_string()],
        label: None,
        no_pause: false,
        while_gaming: false,
        silent: false,
        is_combo: false,
    });
}
