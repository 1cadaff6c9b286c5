//! What a press, repeat or release does: the keys that go out, the modifiers
//! that are held, what is run, and what the display is told.

use crate::axes::{RawEvent, Step, StepView, EV_ABS, EV_KEY, EV_MSC, EV_REL};
use crate::config::{BindingsView, ComboView, Config, ConfigView};
use crate::event::{
    canonical, canonical_list, copy_list, has_event, key_name, same_events, Combo, Cursor, Event,
    Key, Relative, Scroll,
};
use crate::keyed::KeyedList;
use crate::order::{ascending, lemma_arrange, views, Ordered};
use crate::resolver::{
    flagged, is_flagged, resolution, resolve_binding, Resolution, ResolvedBinding,
};
use crate::settings::Settings;
use crate::state_export::{key_names, last_view, ActionValue, LastAction, LastView, ValueView};
use crate::text::{copy_text, joined3, text_in};
use vstd::prelude::*;

verus! {

// ── Gaming mode ──────────────────────────────────────────────────────────────

/// Whether gaming mode swallows an event: everything but releases, unless the
/// binding acts while gaming. A release that was swallowed would leave its
/// button stuck.
pub fn gaming_mode_suppresses(value: i32, while_gaming: bool) -> (r: bool)
    ensures
        r == (value != 0 && !while_gaming),
{
    value != 0 && !while_gaming
}

/// Whether an event is a modifier that is tracked even in gaming mode.
pub fn gaming_mode_tracks_modifier(event: &Event, mapped: &Vec<Event>) -> (r: bool)
    ensures
        r == mapped@.contains(*event),
{
    has_event(mapped, *event)
}

/// Whether the sticks move things: not in gaming mode, and not while paused
/// unless a setting says so.
pub fn stick_loop_active(paused: bool, cursor_when_paused: bool, gaming_mode: bool) -> (r: bool)
    ensures
        r == (!gaming_mode && (!paused || cursor_when_paused)),
{
    !gaming_mode && (!paused || cursor_when_paused)
}

// ── Actions ──────────────────────────────────────────────────────────────────

/// A virtual device.
#[derive(Debug, Clone, Copy, PartialEq, Eq, Structural)]
pub enum Sink {
    Keys,
    Axis,
    Abs,
}

/// Something to be done, in the order in which it is listed.
#[derive(Debug, PartialEq, Eq)]
pub enum Action {
    /// Send an event to a virtual device.
    Send { sink: Sink, event: RawEvent },
    /// Run commands.
    Spawn { commands: Vec<String> },
    /// Write the state out.
    Export,
    /// Go on to the next layout.
    ChangeLayout,
}

/// Something to be done, without its representation.
pub enum ActionView {
    Send { sink: Sink, event: RawEvent },
    Spawn { commands: Seq<String> },
    Export,
    ChangeLayout,
}

impl View for Action {
    type V = ActionView;

    open spec fn view(&self) -> ActionView {
        match *self {
            Action::Send { sink, event } => ActionView::Send { sink, event },
            Action::Spawn { commands } => ActionView::Spawn { commands: commands@ },
            Action::Export => ActionView::Export,
            Action::ChangeLayout => ActionView::ChangeLayout,
        }
    }
}

/// What is known between two events.
#[derive(Debug, PartialEq, Eq)]
pub struct EventReader {
    /// The modifiers that are held.
    pub modifiers: Vec<Event>,
    /// All buttons that are held.
    pub held_keys: Vec<Event>,
    /// The keys that were sent last for each button that is held.
    pub emitted_outputs: KeyedList<Event, Vec<Key>>,
    /// Whether something has been sent since the last modifier went down.
    pub modifier_was_activated: bool,
    pub paused: bool,
    pub gaming_mode: bool,
    /// Which way bound keys move the pointer.
    pub cursor_movement: (i32, i32),
    /// Which way bound keys scroll.
    pub scroll_movement: (i32, i32),
    pub last_action: Option<LastAction>,
    /// What is to be done.
    pub actions: Vec<Action>,
}

/// What is known between two events, without its representation.
#[verifier::ext_equal]
pub struct ReaderView {
    pub modifiers: Seq<Event>,
    pub held_keys: Seq<Event>,
    pub emitted_outputs: Map<Event, Seq<Key>>,
    pub modifier_was_activated: bool,
    pub paused: bool,
    pub gaming_mode: bool,
    pub cursor_movement: (i32, i32),
    pub scroll_movement: (i32, i32),
    pub last_action: Option<LastView>,
    pub actions: Seq<ActionView>,
}

impl View for EventReader {
    type V = ReaderView;

    open spec fn view(&self) -> ReaderView {
        ReaderView {
            modifiers: self.modifiers@,
            held_keys: self.held_keys@,
            emitted_outputs: self.emitted_outputs@,
            modifier_was_activated: self.modifier_was_activated,
            paused: self.paused,
            gaming_mode: self.gaming_mode,
            cursor_movement: self.cursor_movement,
            scroll_movement: self.scroll_movement,
            last_action: last_view(self.last_action),
            actions: views(self.actions@),
        }
    }
}

// ── Steps ────────────────────────────────────────────────────────────────────

/// `r` with one more thing to be done.
pub open spec fn doing(r: ReaderView, a: ActionView) -> ReaderView {
    ReaderView { actions: r.actions.push(a), ..r }
}

/// `r` with a key event to be sent.
pub open spec fn sending(r: ReaderView, code: u16, value: i32) -> ReaderView {
    doing(
        r,
        ActionView::Send { sink: Sink::Keys, event: RawEvent { kind: EV_KEY, code, value } },
    )
}

/// `r` with the same value sent for each of `keys`.
pub open spec fn sending_all(r: ReaderView, keys: Seq<Key>, value: i32) -> ReaderView
    decreases keys.len(),
{
    if keys.len() == 0 {
        r
    } else {
        sending(sending_all(r, keys.drop_last(), value), keys.last().0, value)
    }
}

/// `list` without `e`.
pub open spec fn without(list: Seq<Event>, e: Event) -> Seq<Event> {
    list.filter(|x: Event| x != e)
}

/// A list of held buttons after `e` went down or up.
pub open spec fn held_after(list: Seq<Event>, e: Event, value: i32) -> Seq<Event> {
    if value == 1 {
        canonical(list.push(e))
    } else if value == 0 {
        without(list, e)
    } else {
        list
    }
}

/// `r` after a button went down or up. Only keys count as buttons.
pub open spec fn tracking(r: ReaderView, e: Event, value: i32) -> ReaderView {
    ReaderView {
        held_keys: if e is Key {
            held_after(r.held_keys, e, value)
        } else {
            r.held_keys
        },
        ..r
    }
}

/// `r` after `keys` were sent for a button that is held from now on. Only keys
/// count as buttons.
pub open spec fn remembering(r: ReaderView, e: Event, keys: Seq<Key>, value: i32) -> ReaderView {
    if e is Key && value != 0 {
        ReaderView { emitted_outputs: r.emitted_outputs.insert(e, keys), ..r }
    } else {
        r
    }
}

/// `r` without what was sent for a button.
pub open spec fn forgetting(r: ReaderView, e: Event) -> ReaderView {
    ReaderView { emitted_outputs: r.emitted_outputs.remove(e), ..r }
}

/// What a release lets go of: the keys that were sent last for the button.
pub open spec fn owed(r: ReaderView, e: Event, value: i32) -> Option<Seq<Key>> {
    if value == 0 && r.emitted_outputs.contains_key(e) {
        Some(r.emitted_outputs[e])
    } else {
        None
    }
}

/// `r` after the modifier `m` went down or up; anything else is no modifier.
pub open spec fn toggled(c: ConfigView, r: ReaderView, m: Event, value: i32) -> ReaderView {
    doing(
        ReaderView {
            modifiers: if c.all_modifiers.contains(m) {
                held_after(r.modifiers, m, value)
            } else {
                r.modifiers
            },
            ..r
        },
        ActionView::Export,
    )
}

/// The keys that any button sends while exactly `mods` are held, in the order
/// of the table.
pub open spec fn released_keys(
    items: Seq<(ComboView, Seq<Key>)>,
    mods: Seq<Event>,
) -> Seq<Key>
    decreases items.len(),
{
    if items.len() == 0 {
        Seq::empty()
    } else if items.last().0.1 == mods {
        released_keys(items.drop_last(), mods) + items.last().1
    } else {
        released_keys(items.drop_last(), mods)
    }
}

/// `r` after those of `keys` that are modifiers have been let go.
pub open spec fn letting_go(c: ConfigView, r: ReaderView, keys: Seq<Key>) -> ReaderView
    decreases keys.len(),
{
    if keys.len() == 0 {
        r
    } else {
        let before = letting_go(c, r, keys.drop_last());
        let k = keys.last();
        if c.all_modifiers.contains(Event::Key(k)) {
            sending(toggled(c, before, Event::Key(k), 0), k.0, 0)
        } else {
            before
        }
    }
}

/// `r` after all of `keys` have been let go.
pub open spec fn letting_all_go(c: ConfigView, r: ReaderView, keys: Seq<Key>) -> ReaderView
    decreases keys.len(),
{
    if keys.len() == 0 {
        r
    } else {
        let before = letting_all_go(c, r, keys.drop_last());
        sending(toggled(c, before, Event::Key(keys.last()), 0), keys.last().0, 0)
    }
}

/// What a held modifier sends: the keys of its remap, or its own.
pub open spec fn modifier_outputs(b: BindingsView, m: Event) -> Seq<Key> {
    let alone = (m, Seq::<Event>::empty());
    if b.remap.contains_key(alone) {
        b.remap[alone]
    } else {
        match m {
            Event::Key(k) => seq![k],
            _ => Seq::empty(),
        }
    }
}

/// `r` after what the modifiers `mods` send has been let go, so that it does
/// not colour the keys of a combo.
pub open spec fn clearing(b: BindingsView, r: ReaderView, mods: Seq<Event>) -> ReaderView
    decreases mods.len(),
{
    if mods.len() == 0 {
        r
    } else {
        sending_all(clearing(b, r, mods.drop_last()), modifier_outputs(b, mods.last()), 0)
    }
}

/// `r` after one key of a binding. A custom modifier is sent only when it goes
/// up without having modified anything; then as a tap.
pub open spec fn emitting_key(
    c: ConfigView,
    r: ReaderView,
    k: Key,
    value: i32,
    toggles: bool,
) -> ReaderView {
    let r = if toggles {
        toggled(c, r, Event::Key(k), value)
    } else {
        r
    };
    if c.custom_modifiers.contains(Event::Key(k)) {
        if value == 0 && !r.modifier_was_activated {
            ReaderView {
                modifier_was_activated: true,
                ..sending(sending(r, k.0, 1), k.0, 0)
            }
        } else if value == 1 {
            ReaderView { modifier_was_activated: false, ..r }
        } else {
            r
        }
    } else {
        ReaderView { modifier_was_activated: true, ..sending(r, k.0, value) }
    }
}

/// `r` after the keys of a binding.
pub open spec fn emitting_keys(
    c: ConfigView,
    r: ReaderView,
    keys: Seq<Key>,
    value: i32,
    toggles: bool,
) -> ReaderView
    decreases keys.len(),
{
    if keys.len() == 0 {
        r
    } else {
        emitting_key(
            c,
            emitting_keys(c, r, keys.drop_last(), value, toggles),
            keys.last(),
            value,
            toggles,
        )
    }
}

/// `r` after a binding's keys went down or up. With `release`, the modifiers
/// that buttons send on their own are let go first and the keys count as
/// modifiers; with `ignore`, what the held modifiers send is let go first.
/// Nothing happens while paused, unless `no_pause` says otherwise.
pub open spec fn emitting(
    config: Config,
    r: ReaderView,
    keys: Seq<Key>,
    value: i32,
    mods: Seq<Event>,
    release: bool,
    ignore: bool,
    no_pause: bool,
) -> ReaderView {
    let c = config@;
    if r.paused && !no_pause {
        r
    } else if release && value != 2 {
        emitting_keys(
            c,
            letting_go(c, r, released_keys(config.bindings.remap.items(), mods)),
            keys,
            value,
            true,
        )
    } else if ignore {
        emitting_keys(c, clearing(c.bindings, r, mods), keys, value, false)
    } else {
        emitting_keys(c, r, keys, value, false)
    }
}

/// The virtual device for an event type.
pub open spec fn sink_of(kind: u16) -> Option<Sink> {
    if kind == EV_KEY {
        Some(Sink::Keys)
    } else if kind == EV_REL {
        Some(Sink::Axis)
    } else if kind == EV_ABS || kind == EV_MSC {
        Some(Sink::Abs)
    } else {
        None
    }
}

/// `r` after an event has been handed on as it is.
pub open spec fn passing(r: ReaderView, e: RawEvent) -> ReaderView {
    match sink_of(e.kind) {
        Some(sink) => doing(r, ActionView::Send { sink, event: e }),
        None => r,
    }
}

/// `r` after an event that no binding speaks of.
pub open spec fn unmapped(
    config: Config,
    r: ReaderView,
    raw: RawEvent,
    event: Event,
    value: i32,
    mods: Seq<Event>,
) -> ReaderView {
    let c = config@;
    if r.paused && !flagged(c.bindings.no_pause, event, r.modifiers) {
        if c.all_modifiers.contains(event) {
            toggled(c, r, event, value)
        } else {
            doing(r, ActionView::Export)
        }
    } else {
        let freed = if c.all_modifiers.contains(event) && value != 2 {
            letting_all_go(c, r, released_keys(config.bindings.remap.items(), mods))
        } else {
            r
        };
        let t = toggled(c, freed, event, value);
        if c.custom_modifiers.contains(event) {
            if value == 0 && !t.modifier_was_activated {
                let down = ActionView::Send {
                    sink: Sink::Keys,
                    event: RawEvent { value: 1, ..raw },
                };
                let up = ActionView::Send {
                    sink: Sink::Keys,
                    event: RawEvent { value: 0, ..raw },
                };
                ReaderView { modifier_was_activated: true, ..doing(doing(t, down), up) }
            } else if value == 1 {
                ReaderView { modifier_was_activated: false, ..t }
            } else {
                t
            }
        } else {
            passing(ReaderView { modifier_was_activated: true, ..t }, raw)
        }
    }
}

/// `r` with the keys of a combo as the last action. Only a press of a combo
/// counts; the state is written out in any case.
pub open spec fn noting_keys(
    r: ReaderView,
    keys: Seq<Key>,
    value: i32,
    is_combo: bool,
    label: Option<Seq<char>>,
    silent: bool,
    now: u64,
) -> ReaderView {
    doing(
        ReaderView {
            last_action: if is_combo && value == 1 {
                Some(
                    LastView {
                        kind: "keys"@,
                        value: ValueView::Keys(key_names(keys)),
                        ts_micros: now,
                        label,
                        silent,
                    },
                )
            } else {
                r.last_action
            },
            ..r
        },
        ActionView::Export,
    )
}

/// Texts with blanks between them.
pub open spec fn spaced(texts: Seq<String>) -> Seq<char>
    decreases texts.len(),
{
    if texts.len() == 0 {
        Seq::empty()
    } else if texts.len() == 1 {
        texts[0]@
    } else {
        spaced(texts.drop_last()) + " "@ + texts.last()@
    }
}

/// `r` after a command binding went down or up.
pub open spec fn commanding(
    r: ReaderView,
    commands: Seq<String>,
    value: i32,
    no_pause: bool,
    label: Option<Seq<char>>,
    silent: bool,
    now: u64,
) -> ReaderView {
    if value == 1 {
        let told = doing(
            ReaderView {
                last_action: Some(
                    LastView {
                        kind: "command"@,
                        value: ValueView::Text(spaced(commands)),
                        ts_micros: now,
                        label,
                        silent,
                    },
                ),
                ..r
            },
            ActionView::Export,
        );
        if !r.paused || no_pause {
            doing(
                ReaderView { modifier_was_activated: true, ..told },
                ActionView::Spawn { commands },
            )
        } else {
            told
        }
    } else {
        doing(r, ActionView::Export)
    }
}

/// The other way. The smallest number has no counterpart and stays as it is.
pub open spec fn backwards(value: i32) -> i32 {
    if value == i32::MIN {
        value
    } else {
        (-value) as i32
    }
}

/// A pair after a movement in one of its directions was switched.
pub open spec fn moved(pair: (i32, i32), movement: Relative, value: i32) -> (i32, i32) {
    match movement {
        Relative::Cursor(Cursor::CURSOR_UP) | Relative::Scroll(Scroll::SCROLL_UP) => (
            pair.0,
            backwards(value),
        ),
        Relative::Cursor(Cursor::CURSOR_DOWN) | Relative::Scroll(Scroll::SCROLL_DOWN) => (
            pair.0,
            value,
        ),
        Relative::Cursor(Cursor::CURSOR_LEFT) | Relative::Scroll(Scroll::SCROLL_LEFT) => (
            backwards(value),
            pair.1,
        ),
        Relative::Cursor(Cursor::CURSOR_RIGHT) | Relative::Scroll(Scroll::SCROLL_RIGHT) => (
            value,
            pair.1,
        ),
    }
}

/// `r` after a movement binding went down or up.
pub open spec fn moving(r: ReaderView, movement: Relative, value: i32) -> ReaderView {
    match movement {
        Relative::Cursor(_) => ReaderView {
            cursor_movement: moved(r.cursor_movement, movement, value),
            ..r
        },
        Relative::Scroll(_) => ReaderView {
            scroll_movement: moved(r.scroll_movement, movement, value),
            ..r
        },
    }
}

/// Whether an event asks for the next layout.
pub open spec fn switches_layout(
    settings: Settings,
    event: Event,
    mods: Seq<Event>,
    value: i32,
) -> bool {
    settings.layout_switcher matches Some((e, m)) && e == event && m@ == mods && value == 1
}

/// `r` after the held modifiers `mods` have been let go.
pub open spec fn dropping(c: ConfigView, r: ReaderView, mods: Seq<Event>) -> ReaderView
    decreases mods.len(),
{
    if mods.len() == 0 {
        r
    } else {
        let t = toggled(c, dropping(c, r, mods.drop_last()), mods.last(), 0);
        match mods.last() {
            Event::Key(k) => sending(t, k.0, 0),
            _ => t,
        }
    }
}

/// `r` after the layout was switched.
pub open spec fn switching(
    c: ConfigView,
    r: ReaderView,
    event: Event,
    mods: Seq<Event>,
) -> ReaderView {
    let dropped = dropping(c, r, mods);
    let sent = match event {
        Event::Key(k) => sending(dropped, k.0, 0),
        _ => dropped,
    };
    doing(sent, ActionView::ChangeLayout)
}

/// The hold binding of an event.
pub open spec fn hold_combo(event: Event) -> ComboView {
    (event, seq![Event::Hold])
}

/// Whether a resolution acts in gaming mode.
pub open spec fn acts_while_gaming(b: BindingsView, event: Event, res: Resolution) -> bool {
    match res {
        Resolution::Keys { while_gaming, .. } => while_gaming,
        Resolution::Hold { .. } => b.while_gaming.contains(hold_combo(event)),
        Resolution::Command { while_gaming, .. } => while_gaming,
        _ => false,
    }
}

/// `r` after the keys of a binding went down or up, and up again at once where
/// `send_zero` asks for it.
pub open spec fn emitting_twice(
    config: Config,
    r: ReaderView,
    keys: Seq<Key>,
    value: i32,
    mods: Seq<Event>,
    fallback: bool,
    send_zero: bool,
    no_pause: bool,
) -> ReaderView {
    let first = emitting(
        config,
        r,
        keys,
        value,
        mods,
        !fallback && mods.len() == 0,
        !fallback && mods.len() > 0,
        no_pause,
    );
    if send_zero {
        let then = canonical(first.modifiers);
        emitting(
            config,
            first,
            keys,
            0,
            then,
            !fallback && then.len() == 0,
            !fallback && then.len() > 0,
            no_pause,
        )
    } else {
        first
    }
}

/// `r` after what a release owes has been let go.
pub open spec fn settling(c: ConfigView, r: ReaderView, owed: Option<Seq<Key>>) -> ReaderView {
    match owed {
        Some(keys) => emitting_keys(c, r, keys, 0, false),
        None => r,
    }
}

/// `r` after `event` did what it is bound to. What a release owes takes the
/// place of the keys that the binding has by now.
pub open spec fn bound(
    config: Config,
    settings: Settings,
    r: ReaderView,
    raw: RawEvent,
    event: Event,
    value: i32,
    send_zero: bool,
    now: u64,
    owed: Option<Seq<Key>>,
) -> ReaderView {
    let c = config@;
    let b = c.bindings;
    let mods = canonical(r.modifiers);
    let alone = (event, Seq::<Event>::empty());
    let res = resolution(b, event, mods, settings.chain_only);
    if r.gaming_mode && value != 0 && !acts_while_gaming(b, event, res) {
        if c.all_modifiers.contains(event) {
            toggled(c, r, event, value)
        } else {
            doing(r, ActionView::Export)
        }
    } else if c.custom_modifiers.contains(event) && b.remap.contains_key(alone) {
        let keys = owed.unwrap_or(b.remap[alone]);
        let sent = if r.paused && !b.no_pause.contains(alone) && owed is None {
            r
        } else {
            remembering(sending_all(r, keys, value), event, keys, value)
        };
        toggled(c, doing(sent, ActionView::Export), event, value)
    } else {
        match res {
            Resolution::Keys {
                keys,
                label,
                no_pause,
                silent,
                is_combo,
                is_fallback,
                ..
            } => {
                let sent = emitting_twice(
                    config,
                    noting_keys(r, keys, value, is_combo, label, silent, now),
                    owed.unwrap_or(keys),
                    value,
                    mods,
                    is_fallback,
                    send_zero,
                    no_pause || owed is Some,
                );
                if (r.paused && !no_pause) || send_zero {
                    sent
                } else {
                    remembering(sent, event, keys, value)
                }
            },
            Resolution::Hold { keys } => {
                let no_pause = b.no_pause.contains(hold_combo(event));
                let sent = emitting(
                    config,
                    r,
                    owed.unwrap_or(keys),
                    value,
                    mods,
                    false,
                    false,
                    no_pause || owed is Some,
                );
                if r.paused && !no_pause {
                    sent
                } else {
                    remembering(sent, event, keys, value)
                }
            },
            Resolution::Command { commands, label, no_pause, silent, .. } => commanding(
                settling(c, r, owed),
                commands,
                value,
                no_pause,
                label,
                silent,
                now,
            ),
            Resolution::Movement { movement, .. } => {
                let settled = settling(c, r, owed);
                if value <= 1 && !r.paused {
                    moving(settled, movement, value)
                } else {
                    settled
                }
            },
            Resolution::Unbound => if switches_layout(settings, event, mods, value) {
                switching(c, r, event, mods)
            } else {
                unmapped(config, settling(c, r, owed), raw, event, value, mods)
            },
        }
    }
}

/// `r` after `event`, which the device reported as `raw`, went down, repeated
/// or went up. A button that goes up lets go of what was sent for it last,
/// whatever it is bound to by then, and even while paused.
pub open spec fn converted(
    config: Config,
    settings: Settings,
    r: ReaderView,
    raw: RawEvent,
    event: Event,
    value: i32,
    send_zero: bool,
    now: u64,
) -> ReaderView {
    let owed = owed(r, event, value);
    let before = if owed is Some {
        forgetting(r, event)
    } else {
        r
    };
    bound(config, settings, before, raw, event, value, send_zero, now, owed)
}

/// `r` with the events of a pen to be sent.
pub open spec fn sending_pen(r: ReaderView, events: Seq<RawEvent>) -> ReaderView
    decreases events.len(),
{
    if events.len() == 0 {
        r
    } else {
        doing(
            sending_pen(r, events.drop_last()),
            ActionView::Send { sink: Sink::Abs, event: events.last() },
        )
    }
}

/// `r` after what an event of the device asks for.
pub open spec fn obeying(
    config: Config,
    settings: Settings,
    r: ReaderView,
    raw: RawEvent,
    step: StepView,
    now: u64,
) -> ReaderView {
    match step {
        StepView::Nothing => r,
        StepView::Convert { event, value, send_zero } => converted(
            config,
            settings,
            tracking(r, event, value),
            raw,
            event,
            value,
            send_zero,
            now,
        ),
        StepView::Default => if r.paused {
            r
        } else {
            passing(r, raw)
        },
        StepView::Pen { events } => sending_pen(r, events),
    }
}

// ── The reader ───────────────────────────────────────────────────────────────

fn has_key_modifier(list: &Vec<Event>, k: Key) -> (r: bool)
    ensures
        r == list@.contains(Event::Key(k)),
{
    has_event(list, Event::Key(k))
}

fn without_event(list: &Vec<Event>, e: Event) -> (r: Vec<Event>)
    ensures
        r@ == without(list@, e),
{
    let mut r: Vec<Event> = Vec::new();
    let mut i: usize = 0;
    proof {
        assert(list@.take(0) =~= Seq::<Event>::empty());
        reveal(Seq::filter);
    }
    while i < list.len()
        invariant
            i <= list@.len(),
            r@ == without(list@.take(i as int), e),
        decreases list@.len() - i,
    {
        if list[i] != e {
            r.push(list[i]);
        }
        proof {
            reveal(Seq::filter);
            let t = list@.take(i + 1);
            assert(t.drop_last() =~= list@.take(i as int));
            assert(t.last() == list@[i as int]);
        }
        i = i + 1;
    }
    assert(list@.take(i as int) =~= list@);
    r
}

fn track(list: &Vec<Event>, e: Event, value: i32) -> (r: Vec<Event>)
    ensures
        r@ == held_after(list@, e, value),
{
    if value == 1 {
        let mut more: Vec<Event> = copy_list(list);
        more.push(e);
        canonical_list(&more)
    } else if value == 0 {
        without_event(list, e)
    } else {
        copy_list(list)
    }
}

fn append_keys(list: &mut Vec<Key>, more: &Vec<Key>)
    ensures
        final(list)@ == old(list)@ + more@,
{
    let mut i: usize = 0;
    assert(list@ + more@.take(0) =~= list@);
    while i < more.len()
        invariant
            i <= more@.len(),
            list@ == old(list)@ + more@.take(i as int),
        decreases more@.len() - i,
    {
        list.push(more[i]);
        i = i + 1;
        assert(old(list)@ + more@.take(i as int) =~= (old(list)@ + more@.take(i - 1)).push(
            more@[i - 1],
        ));
    }
    assert(more@.take(i as int) =~= more@);
}

fn released(config: &Config, mods: &Vec<Event>) -> (r: Vec<Key>)
    ensures
        r@ == released_keys(config.bindings.remap.items(), mods@),
{
    let table = &config.bindings.remap;
    let n: usize = table.len();
    let ghost items = table.items();
    let mut r: Vec<Key> = Vec::new();
    let mut i: usize = 0;
    assert(items.take(0) =~= Seq::<(ComboView, Seq<Key>)>::empty());
    while i < n
        invariant
            i <= n == items.len(),
            items == table.items(),
            r@ == released_keys(items.take(i as int), mods@),
        decreases n - i,
    {
        if same_events(&table.key_at(i).held, mods) {
            append_keys(&mut r, table.value_at(i));
        }
        i = i + 1;
        proof {
            assert(items.take(i as int).drop_last() =~= items.take(i - 1));
            assert(items.take(i as int).last() == items[i - 1]);
        }
    }
    assert(items.take(n as int) =~= items);
    r
}

fn outputs_of(config: &Config, m: Event) -> (r: Vec<Key>)
    ensures
        r@ == modifier_outputs(config.bindings@, m),
{
    match config.bindings.remap.get(&Combo::plain(m)) {
        Some(keys) => copy_list(keys),
        None => {
            let mut r: Vec<Key> = Vec::new();
            if let Event::Key(k) = m {
                r.push(k);
            }
            assert(r@ =~= modifier_outputs(config.bindings@, m));
            r
        },
    }
}

/// The keys in an optional list.
spec fn keys_in(keys: Option<Vec<Key>>) -> Option<Seq<Key>> {
    match keys {
        Some(k) => Some(k@),
        None => None,
    }
}

fn owed_or(owed: &Option<Vec<Key>>, keys: &Vec<Key>) -> (r: Vec<Key>)
    ensures
        r@ == keys_in(*owed).unwrap_or(keys@),
{
    match owed {
        Some(k) => copy_list(k),
        None => copy_list(keys),
    }
}

fn hold_combo_of(event: Event) -> (r: Combo)
    ensures
        r@ == hold_combo(event),
{
    let mut held: Vec<Event> = Vec::new();
    held.push(Event::Hold);
    assert(held@ =~= seq![Event::Hold]);
    Combo { trigger: event, held }
}

fn spaced_text(texts: &Vec<String>) -> (r: String)
    ensures
        r@ == spaced(texts@),
{
    if texts.len() == 0 {
        return String::new();
    }
    let mut r: String = texts[0].clone();
    let mut i: usize = 1;
    assert(texts@.take(1).len() == 1);
    while i < texts.len()
        invariant
            1 <= i <= texts@.len(),
            r@ == spaced(texts@.take(i as int)),
        decreases texts@.len() - i,
    {
        r = joined3(r.as_str(), " ", texts[i].as_str());
        i = i + 1;
        proof {
            assert(texts@.take(i as int).drop_last() =~= texts@.take(i - 1));
            assert(texts@.take(i as int).last() == texts@[i - 1]);
        }
    }
    assert(texts@.take(i as int) =~= texts@);
    r
}

impl EventReader {
    /// Nothing held, nothing to be done. No modifier waits for something to
    /// modify: one that only goes up is no tap.
    pub fn new() -> (r: EventReader)
        ensures
            r@ == (ReaderView {
                modifiers: Seq::empty(),
                held_keys: Seq::empty(),
                emitted_outputs: Map::empty(),
                modifier_was_activated: true,
                paused: false,
                gaming_mode: false,
                cursor_movement: (0i32, 0i32),
                scroll_movement: (0i32, 0i32),
                last_action: None,
                actions: Seq::empty(),
            }),
    {
        let r = EventReader {
            modifiers: Vec::new(),
            held_keys: Vec::new(),
            emitted_outputs: KeyedList::new(),
            modifier_was_activated: true,
            paused: false,
            gaming_mode: false,
            cursor_movement: (0, 0),
            scroll_movement: (0, 0),
            last_action: None,
            actions: Vec::new(),
        };
        assert(r@.actions =~= Seq::<ActionView>::empty());
        assert(r@.modifiers =~= Seq::<Event>::empty());
        assert(r@.held_keys =~= Seq::<Event>::empty());
        r
    }

    /// Hand over what is to be done.
    pub fn take_actions(&mut self) -> (r: Vec<Action>)
        ensures
            r == old(self).actions,
            final(self)@ == (ReaderView { actions: Seq::empty(), ..old(self)@ }),
    {
        let mut r: Vec<Action> = Vec::new();
        std::mem::swap(&mut r, &mut self.actions);
        assert(self@.actions =~= Seq::<ActionView>::empty());
        r
    }

    fn act(&mut self, a: Action)
        ensures
            final(self)@ == doing(old(self)@, a@),
    {
        let ghost before = self@.actions;
        self.actions.push(a);
        assert(self@.actions =~= before.push(a@));
    }

    fn send(&mut self, code: u16, value: i32)
        ensures
            final(self)@ == sending(old(self)@, code, value),
    {
        self.act(Action::Send { sink: Sink::Keys, event: RawEvent { kind: EV_KEY, code, value } });
    }

    fn send_all(&mut self, keys: &Vec<Key>, value: i32)
        ensures
            final(self)@ == sending_all(old(self)@, keys@, value),
    {
        let mut i: usize = 0;
        assert(keys@.take(0) =~= Seq::<Key>::empty());
        while i < keys.len()
            invariant
                i <= keys@.len(),
                self@ == sending_all(old(self)@, keys@.take(i as int), value),
            decreases keys@.len() - i,
        {
            self.send(keys[i].0, value);
            i = i + 1;
            proof {
                assert(keys@.take(i as int).drop_last() =~= keys@.take(i - 1));
                assert(keys@.take(i as int).last() == keys@[i - 1]);
            }
        }
        assert(keys@.take(i as int) =~= keys@);
    }

    /// Note that a button went down or up.
    pub fn track_held(&mut self, event: Event, value: i32)
        ensures
            final(self)@ == tracking(old(self)@, event, value),
    {
        if let Event::Key(_) = event {
            self.held_keys = track(&self.held_keys, event, value);
        }
    }

    /// Note that a modifier went down or up, and have the state written out.
    pub fn toggle_modifiers(&mut self, config: &Config, modifier: Event, value: i32)
        ensures
            final(self)@ == toggled(config@, old(self)@, modifier, value),
    {
        if has_event(&config.mapped_modifiers.all, modifier) {
            self.modifiers = track(&self.modifiers, modifier, value);
        }
        self.act(Action::Export);
    }

    fn let_go(&mut self, config: &Config, keys: &Vec<Key>)
        ensures
            final(self)@ == letting_go(config@, old(self)@, keys@),
    {
        let mut i: usize = 0;
        assert(keys@.take(0) =~= Seq::<Key>::empty());
        while i < keys.len()
            invariant
                i <= keys@.len(),
                self@ == letting_go(config@, old(self)@, keys@.take(i as int)),
            decreases keys@.len() - i,
        {
            if has_key_modifier(&config.mapped_modifiers.all, keys[i]) {
                self.toggle_modifiers(config, Event::Key(keys[i]), 0);
                self.send(keys[i].0, 0);
            }
            i = i + 1;
            proof {
                assert(keys@.take(i as int).drop_last() =~= keys@.take(i - 1));
                assert(keys@.take(i as int).last() == keys@[i - 1]);
            }
        }
        assert(keys@.take(i as int) =~= keys@);
    }

    fn let_all_go(&mut self, config: &Config, keys: &Vec<Key>)
        ensures
            final(self)@ == letting_all_go(config@, old(self)@, keys@),
    {
        let mut i: usize = 0;
        assert(keys@.take(0) =~= Seq::<Key>::empty());
        while i < keys.len()
            invariant
                i <= keys@.len(),
                self@ == letting_all_go(config@, old(self)@, keys@.take(i as int)),
            decreases keys@.len() - i,
        {
            self.toggle_modifiers(config, Event::Key(keys[i]), 0);
            self.send(keys[i].0, 0);
            i = i + 1;
            proof {
                assert(keys@.take(i as int).drop_last() =~= keys@.take(i - 1));
                assert(keys@.take(i as int).last() == keys@[i - 1]);
            }
        }
        assert(keys@.take(i as int) =~= keys@);
    }

    fn clear_modifiers(&mut self, config: &Config, mods: &Vec<Event>)
        ensures
            final(self)@ == clearing(config@.bindings, old(self)@, mods@),
    {
        let mut i: usize = 0;
        assert(mods@.take(0) =~= Seq::<Event>::empty());
        while i < mods.len()
            invariant
                i <= mods@.len(),
                self@ == clearing(config@.bindings, old(self)@, mods@.take(i as int)),
            decreases mods@.len() - i,
        {
            let keys: Vec<Key> = outputs_of(config, mods[i]);
            self.send_all(&keys, 0);
            i = i + 1;
            proof {
                assert(mods@.take(i as int).drop_last() =~= mods@.take(i - 1));
                assert(mods@.take(i as int).last() == mods@[i - 1]);
            }
        }
        assert(mods@.take(i as int) =~= mods@);
    }

    fn emit_key(&mut self, config: &Config, k: Key, value: i32, toggles: bool)
        ensures
            final(self)@ == emitting_key(config@, old(self)@, k, value, toggles),
    {
        if toggles {
            self.toggle_modifiers(config, Event::Key(k), value);
        }
        if has_key_modifier(&config.mapped_modifiers.custom, k) {
            if value == 0 && !self.modifier_was_activated {
                self.send(k.0, 1);
                self.send(k.0, 0);
                self.modifier_was_activated = true;
            } else if value == 1 {
                self.modifier_was_activated = false;
            }
        } else {
            self.send(k.0, value);
            self.modifier_was_activated = true;
        }
    }

    fn emit_keys(&mut self, config: &Config, keys: &Vec<Key>, value: i32, toggles: bool)
        ensures
            final(self)@ == emitting_keys(config@, old(self)@, keys@, value, toggles),
    {
        let mut i: usize = 0;
        assert(keys@.take(0) =~= Seq::<Key>::empty());
        while i < keys.len()
            invariant
                i <= keys@.len(),
                self@ == emitting_keys(config@, old(self)@, keys@.take(i as int), value, toggles),
            decreases keys@.len() - i,
        {
            self.emit_key(config, keys[i], value, toggles);
            i = i + 1;
            proof {
                assert(keys@.take(i as int).drop_last() =~= keys@.take(i - 1));
                assert(keys@.take(i as int).last() == keys@[i - 1]);
            }
        }
        assert(keys@.take(i as int) =~= keys@);
    }

    /// Send the keys of a binding.
    pub fn emit_event(
        &mut self,
        event_list: &Vec<Key>,
        value: i32,
        modifiers: &Vec<Event>,
        config: &Config,
        release_keys: bool,
        ignore_modifiers: bool,
        no_pause: bool,
    )
        ensures
            final(self)@ == emitting(
                *config,
                old(self)@,
                event_list@,
                value,
                modifiers@,
                release_keys,
                ignore_modifiers,
                no_pause,
            ),
    {
        if self.paused && !no_pause {
            return;
        }
        let release: bool = release_keys && value != 2;
        if release {
            let keys: Vec<Key> = released(config, modifiers);
            self.let_go(config, &keys);
        } else if ignore_modifiers {
            self.clear_modifiers(config, modifiers);
        }
        self.emit_keys(config, event_list, value, release);
    }

    /// Hand an event on as it is, unless paused.
    pub fn emit_default_event(&mut self, event: RawEvent)
        ensures
            final(self)@ == if old(self)@.paused {
                old(self)@
            } else {
                passing(old(self)@, event)
            },
    {
        if !self.paused {
            self.pass(event);
        }
    }

    fn pass(&mut self, event: RawEvent)
        ensures
            final(self)@ == passing(old(self)@, event),
    {
        if event.kind == EV_KEY {
            self.act(Action::Send { sink: Sink::Keys, event });
        } else if event.kind == EV_REL {
            self.act(Action::Send { sink: Sink::Axis, event });
        } else if event.kind == EV_ABS || event.kind == EV_MSC {
            self.act(Action::Send { sink: Sink::Abs, event });
        }
    }

    /// Handle an event that no binding speaks of.
    pub fn emit_nonmapped_event(
        &mut self,
        default_event: RawEvent,
        event: Event,
        value: i32,
        modifiers: &Vec<Event>,
        config: &Config,
    )
        ensures
            final(self)@ == unmapped(
                *config,
                old(self)@,
                default_event,
                event,
                value,
                modifiers@,
            ),
    {
        let is_modifier: bool = has_event(&config.mapped_modifiers.all, event);
        if self.paused {
            let combo = Combo::of(event, &self.modifiers);
            if !is_flagged(&config.bindings.no_pause, &combo) {
                if is_modifier {
                    self.toggle_modifiers(config, event, value);
                } else {
                    self.act(Action::Export);
                }
                return;
            }
        }
        if is_modifier && value != 2 {
            let keys: Vec<Key> = released(config, modifiers);
            self.let_all_go(config, &keys);
        }
        self.toggle_modifiers(config, event, value);
        if has_event(&config.mapped_modifiers.custom, event) {
            if value == 0 && !self.modifier_was_activated {
                self.act(
                    Action::Send {
                        sink: Sink::Keys,
                        event: RawEvent {
                            kind: default_event.kind,
                            code: default_event.code,
                            value: 1,
                        },
                    },
                );
                self.act(
                    Action::Send {
                        sink: Sink::Keys,
                        event: RawEvent {
                            kind: default_event.kind,
                            code: default_event.code,
                            value: 0,
                        },
                    },
                );
                self.modifier_was_activated = true;
            } else if value == 1 {
                self.modifier_was_activated = false;
            }
        } else {
            self.modifier_was_activated = true;
            self.pass(default_event);
        }
    }

    /// Note the keys of a combo as the last action.
    pub fn set_last_emitted(
        &mut self,
        emitted: &Vec<Key>,
        value: i32,
        is_combo: bool,
        label: &Option<String>,
        silent: bool,
        now_micros: u64,
    )
        ensures
            final(self)@ == noting_keys(
                old(self)@,
                emitted@,
                value,
                is_combo,
                text_in(*label),
                silent,
                now_micros,
            ),
    {
        if is_combo && value == 1 {
            let mut names: Vec<String> = Vec::new();
            let mut i: usize = 0;
            while i < emitted.len()
                invariant
                    i <= emitted@.len(),
                    names@.len() == i,
                    forall|j: int| 0 <= j < i ==> (#[trigger] names@[j])@ == key_name(emitted@[j]),
                decreases emitted@.len() - i,
            {
                names.push(emitted[i].name());
                i = i + 1;
            }
            assert(views(names@) =~= key_names(emitted@));
            self.last_action = Some(
                LastAction {
                    kind: "keys".to_owned(),
                    value: ActionValue::Keys(names),
                    ts_micros: now_micros,
                    label: copy_text(label),
                    silent,
                },
            );
        }
        self.act(Action::Export);
    }

    /// Handle a command binding.
    fn command(
        &mut self,
        commands: Vec<String>,
        value: i32,
        no_pause: bool,
        label: &Option<String>,
        silent: bool,
        now_micros: u64,
    )
        ensures
            final(self)@ == commanding(
                old(self)@,
                commands@,
                value,
                no_pause,
                text_in(*label),
                silent,
                now_micros,
            ),
    {
        if value == 1 {
            self.last_action = Some(
                LastAction {
                    kind: "command".to_owned(),
                    value: ActionValue::Text(spaced_text(&commands)),
                    ts_micros: now_micros,
                    label: copy_text(label),
                    silent,
                },
            );
            self.act(Action::Export);
            if !self.paused || no_pause {
                self.modifier_was_activated = true;
                self.act(Action::Spawn { commands });
            }
        } else {
            self.act(Action::Export);
        }
    }

    /// Switch a movement.
    pub fn emit_movement(&mut self, movement: Relative, value: i32)
        ensures
            final(self)@ == moving(old(self)@, movement, value),
    {
        let back: i32 = if value == i32::MIN {
            value
        } else {
            -value
        };
        match movement {
            Relative::Cursor(Cursor::CURSOR_UP) => {
                self.cursor_movement.1 = back;
            },
            Relative::Cursor(Cursor::CURSOR_DOWN) => {
                self.cursor_movement.1 = value;
            },
            Relative::Cursor(Cursor::CURSOR_LEFT) => {
                self.cursor_movement.0 = back;
            },
            Relative::Cursor(Cursor::CURSOR_RIGHT) => {
                self.cursor_movement.0 = value;
            },
            Relative::Scroll(Scroll::SCROLL_UP) => {
                self.scroll_movement.1 = back;
            },
            Relative::Scroll(Scroll::SCROLL_DOWN) => {
                self.scroll_movement.1 = value;
            },
            Relative::Scroll(Scroll::SCROLL_LEFT) => {
                self.scroll_movement.0 = back;
            },
            Relative::Scroll(Scroll::SCROLL_RIGHT) => {
                self.scroll_movement.0 = value;
            },
        }
    }

    fn drop_modifiers(&mut self, config: &Config, mods: &Vec<Event>)
        ensures
            final(self)@ == dropping(config@, old(self)@, mods@),
    {
        let mut i: usize = 0;
        assert(mods@.take(0) =~= Seq::<Event>::empty());
        while i < mods.len()
            invariant
                i <= mods@.len(),
                self@ == dropping(config@, old(self)@, mods@.take(i as int)),
            decreases mods@.len() - i,
        {
            self.toggle_modifiers(config, mods[i], 0);
            if let Event::Key(k) = mods[i] {
                self.send(k.0, 0);
            }
            i = i + 1;
            proof {
                assert(mods@.take(i as int).drop_last() =~= mods@.take(i - 1));
                assert(mods@.take(i as int).last() == mods@[i - 1]);
            }
        }
        assert(mods@.take(i as int) =~= mods@);
    }

    fn emit_twice(
        &mut self,
        config: &Config,
        keys: &Vec<Key>,
        value: i32,
        mods: &Vec<Event>,
        fallback: bool,
        send_zero: bool,
        no_pause: bool,
    )
        ensures
            final(self)@ == emitting_twice(
                *config,
                old(self)@,
                keys@,
                value,
                mods@,
                fallback,
                send_zero,
                no_pause,
            ),
    {
        let none: bool = mods.len() == 0;
        self.emit_event(
            keys,
            value,
            mods,
            config,
            !fallback && none,
            !fallback && !none,
            no_pause,
        );
        if send_zero {
            let again: Vec<Event> = canonical_list(&self.modifiers);
            let none: bool = again.len() == 0;
            self.emit_event(
                keys,
                0,
                &again,
                config,
                !fallback && none,
                !fallback && !none,
                no_pause,
            );
        }
    }

    /// What a release lets go of, which is then no longer remembered.
    fn take_owed(&mut self, event: Event, value: i32) -> (r: Option<Vec<Key>>)
        ensures
            keys_in(r) == owed(old(self)@, event, value),
            final(self)@ == if r is Some {
                forgetting(old(self)@, event)
            } else {
                old(self)@
            },
    {
        if value != 0 {
            return None;
        }
        let r: Option<Vec<Key>> = match self.emitted_outputs.get(&event) {
            Some(keys) => Some(copy_list(keys)),
            None => None,
        };
        if r.is_some() {
            self.emitted_outputs.remove(&event);
        }
        r
    }

    fn remember(&mut self, event: Event, keys: Vec<Key>, value: i32)
        ensures
            final(self)@ == remembering(old(self)@, event, keys@, value),
    {
        if let Event::Key(_) = event {
            if value != 0 {
                self.emitted_outputs.insert(event, keys);
            }
        }
    }

    fn settle(&mut self, config: &Config, owed: &Option<Vec<Key>>)
        ensures
            final(self)@ == settling(config@, old(self)@, keys_in(*owed)),
    {
        if let Some(keys) = owed {
            self.emit_keys(config, keys, 0, false);
        }
    }

    /// Do what an event of the device asks for. The events of a pen are handed
    /// on even while paused.
    pub fn obey(
        &mut self,
        step: Step,
        config: &Config,
        settings: &Settings,
        default_event: RawEvent,
        now_micros: u64,
    )
        ensures
            final(self)@ == obeying(
                *config,
                *settings,
                old(self)@,
                default_event,
                step@,
                now_micros,
            ),
    {
        match step {
            Step::Nothing => {},
            Step::Convert { event, value, send_zero } => {
                self.convert_event(
                    config,
                    settings,
                    default_event,
                    event,
                    value,
                    send_zero,
                    now_micros,
                );
            },
            Step::Default => {
                self.emit_default_event(default_event);
            },
            Step::Pen { events } => {
                let mut i: usize = 0;
                assert(events@.take(0) =~= Seq::<RawEvent>::empty());
                while i < events.len()
                    invariant
                        i <= events@.len(),
                        self@ == sending_pen(old(self)@, events@.take(i as int)),
                    decreases events@.len() - i,
                {
                    self.act(Action::Send { sink: Sink::Abs, event: events[i] });
                    i = i + 1;
                    proof {
                        assert(events@.take(i as int).drop_last() =~= events@.take(i - 1));
                        assert(events@.take(i as int).last() == events@[i - 1]);
                    }
                }
                assert(events@.take(i as int) =~= events@);
            },
        }
    }

    /// Handle `event`, which the device reported as `default_event`: it went
    /// down (1), repeated (2) or went up (0), and is noted among the held
    /// buttons. With `send_zero`, a release follows at once. A release lets go of
    /// what was sent last for the button.
    pub fn convert_event(
        &mut self,
        config: &Config,
        settings: &Settings,
        default_event: RawEvent,
        event: Event,
        value: i32,
        send_zero: bool,
        now_micros: u64,
    )
        ensures
            final(self)@ == converted(
                *config,
                *settings,
                tracking(old(self)@, event, value),
                default_event,
                event,
                value,
                send_zero,
                now_micros,
            ),
    {
        self.track_held(event, value);
        let owed: Option<Vec<Key>> = self.take_owed(event, value);
        let mods: Vec<Event> = canonical_list(&self.modifiers);
        let binding = resolve_binding(&config.bindings, event, &mods, settings.chain_only);
        if self.gaming_mode {
            let while_gaming: bool = match &binding {
                ResolvedBinding::Keys { while_gaming, .. } => *while_gaming,
                ResolvedBinding::Hold { .. } => {
                    config.bindings.while_gaming.contains_key(&hold_combo_of(event))
                },
                ResolvedBinding::Command { while_gaming, .. } => *while_gaming,
                _ => false,
            };
            if gaming_mode_suppresses(value, while_gaming) {
                if gaming_mode_tracks_modifier(&event, &config.mapped_modifiers.all) {
                    self.toggle_modifiers(config, event, value);
                } else {
                    self.act(Action::Export);
                }
                return;
            }
        }
        if has_event(&config.mapped_modifiers.custom, event) {
            let alone = Combo::plain(event);
            if let Some(keys) = config.bindings.remap.get(&alone) {
                let marked: bool = config.bindings.no_pause.contains_key(&alone);
                if !self.paused || marked || owed.is_some() {
                    let sent: Vec<Key> = owed_or(&owed, keys);
                    self.send_all(&sent, value);
                    self.remember(event, sent, value);
                }
                self.act(Action::Export);
                self.toggle_modifiers(config, event, value);
                return;
            }
        }
        match binding {
            ResolvedBinding::Keys { keys, label, no_pause, silent, is_combo, is_fallback, .. } => {
                let goes_out: bool = !self.paused || no_pause;
                self.set_last_emitted(&keys, value, is_combo, &label, silent, now_micros);
                let sent: Vec<Key> = owed_or(&owed, &keys);
                self.emit_twice(
                    config,
                    &sent,
                    value,
                    &mods,
                    is_fallback,
                    send_zero,
                    no_pause || owed.is_some(),
                );
                if goes_out && !send_zero {
                    self.remember(event, keys, value);
                }
            },
            ResolvedBinding::Hold { keys } => {
                let no_pause: bool = config.bindings.no_pause.contains_key(&hold_combo_of(event));
                let goes_out: bool = !self.paused || no_pause;
                let sent: Vec<Key> = owed_or(&owed, &keys);
                self.emit_event(
                    &sent,
                    value,
                    &mods,
                    config,
                    false,
                    false,
                    no_pause || owed.is_some(),
                );
                if goes_out {
                    self.remember(event, keys, value);
                }
            },
            ResolvedBinding::Command { commands, label, no_pause, silent, .. } => {
                self.settle(config, &owed);
                self.command(commands, value, no_pause, &label, silent, now_micros);
            },
            ResolvedBinding::Movement { movement, .. } => {
                let paused: bool = self.paused;
                self.settle(config, &owed);
                if value <= 1 && !paused {
                    self.emit_movement(movement, value);
                }
            },
            ResolvedBinding::Unbound => {
                if let Some((trigger, held)) = &settings.layout_switcher {
                    if *trigger == event && same_events(held, &mods) && value == 1 {
                        self.drop_modifiers(config, &mods);
                        if let Event::Key(k) = event {
                            self.send(k.0, 0);
                        }
                        self.act(Action::ChangeLayout);
                        return;
                    }
                }
                self.settle(config, &owed);
                self.emit_nonmapped_event(default_event, event, value, &mods, config);
            },
        }
    }
}

// ── Laws: modifiers ──────────────────────────────────────────────────────────

proof fn lemma_filter_members(list: Seq<Event>, e: Event)
    ensures
        forall|x: Event| #[trigger] without(list, e).contains(x) <==> list.contains(x) && x != e,
    decreases list.len(),
{
    reveal(Seq::filter);
    if list.len() > 0 {
        let init = list.drop_last();
        let last = list.last();
        lemma_filter_members(init, e);
        assert forall|x: Event| #[trigger] without(list, e).contains(x) <==> list.contains(x) && x
            != e by {
            assert(without(init, e).contains(x) <==> init.contains(x) && x != e);
            if list.contains(x) {
                let i = choose|i: int| 0 <= i < list.len() && list[i] == x;
                if i < init.len() {
                    assert(init[i] == x);
                }
            }
            if init.contains(x) {
                let i = choose|i: int| 0 <= i < init.len() && init[i] == x;
                assert(list[i] == x);
            }
            assert(list[list.len() - 1] == last);
            if last != e {
                let kept = without(init, e);
                let all = kept.push(last);
                assert(without(list, e) =~= all);
                assert(all[kept.len() as int] == last);
                if kept.contains(x) {
                    let i = choose|i: int| 0 <= i < kept.len() && kept[i] == x;
                    assert(all[i] == x);
                }
                if all.contains(x) {
                    let i = choose|i: int| 0 <= i < all.len() && all[i] == x;
                    if i < kept.len() {
                        assert(kept[i] == x);
                    }
                }
            } else {
                assert(without(list, e) =~= without(init, e));
            }
        }
    }
}

proof fn lemma_filter_ascending(list: Seq<Event>, e: Event)
    requires
        ascending::<Event>(list),
    ensures
        ascending::<Event>(without(list, e)),
    decreases list.len(),
{
    reveal(Seq::filter);
    if list.len() > 0 {
        let init = list.drop_last();
        let last = list.last();
        let kept = without(init, e);
        assert(ascending::<Event>(init));
        lemma_filter_ascending(init, e);
        lemma_filter_members(init, e);
        if last != e {
            let all = kept.push(last);
            assert(without(list, e) =~= all);
            assert forall|i: int, j: int|
                #![trigger all[i], all[j]]
                0 <= i < j < all.len() implies <Event as Ordered>::before(all[i], all[j]) by {
                if j == kept.len() {
                    assert(kept.contains(kept[i]));
                    let k = choose|k: int| 0 <= k < init.len() && init[k] == kept[i];
                    assert(<Event as Ordered>::before(list[k], list[list.len() - 1]));
                } else {
                    assert(<Event as Ordered>::before(kept[i], kept[j]));
                }
            }
        } else {
            assert(without(list, e) =~= kept);
        }
    }
}

/// A button that went down is held until it goes up, and no other is touched.
/// What is held stays in ascending order, each button once.
pub proof fn law_held_buttons(list: Seq<Event>, e: Event, value: i32)
    requires
        ascending::<Event>(list),
    ensures
        ascending::<Event>(held_after(list, e, value)),
        value == 1 ==> held_after(list, e, value).contains(e),
        value == 0 ==> !held_after(list, e, value).contains(e),
        forall|x: Event|
            x != e ==> (#[trigger] held_after(list, e, value).contains(x) <==> list.contains(x)),
{
    if value == 1 {
        let more = list.push(e);
        lemma_arrange::<Event>(more);
        assert(more[list.len() as int] == e);
        assert(more.contains(e));
        assert forall|x: Event| x != e implies (#[trigger] held_after(list, e, value).contains(x)
            <==> list.contains(x)) by {
            assert(canonical(more).contains(x) <==> more.contains(x));
            if list.contains(x) {
                let i = choose|i: int| 0 <= i < list.len() && list[i] == x;
                assert(more[i] == x);
            }
            if more.contains(x) {
                let i = choose|i: int| 0 <= i < more.len() && more[i] == x;
                assert(list[i] == x);
            }
        }
        assert(canonical(more).contains(e));
    } else if value == 0 {
        lemma_filter_ascending(list, e);
        lemma_filter_members(list, e);
        assert(!without(list, e).contains(e));
    }
}

/// Whether the held modifiers are in ascending order, each once.
pub open spec fn in_form(r: ReaderView) -> bool {
    ascending::<Event>(r.modifiers)
}

proof fn lemma_toggled_in_form(c: ConfigView, r: ReaderView, m: Event, value: i32)
    requires
        in_form(r),
    ensures
        in_form(toggled(c, r, m, value)),
{
    law_held_buttons(r.modifiers, m, value);
}

proof fn lemma_sending_all_in_form(r: ReaderView, keys: Seq<Key>, value: i32)
    requires
        in_form(r),
    ensures
        in_form(sending_all(r, keys, value)),
    decreases keys.len(),
{
    if keys.len() > 0 {
        lemma_sending_all_in_form(r, keys.drop_last(), value);
    }
}

proof fn lemma_letting_go_in_form(c: ConfigView, r: ReaderView, keys: Seq<Key>)
    requires
        in_form(r),
    ensures
        in_form(letting_go(c, r, keys)),
        in_form(letting_all_go(c, r, keys)),
    decreases keys.len(),
{
    if keys.len() > 0 {
        lemma_letting_go_in_form(c, r, keys.drop_last());
        lemma_toggled_in_form(
            c,
            letting_go(c, r, keys.drop_last()),
            Event::Key(keys.last()),
            0,
        );
        lemma_toggled_in_form(
            c,
            letting_all_go(c, r, keys.drop_last()),
            Event::Key(keys.last()),
            0,
        );
    }
}

proof fn lemma_clearing_in_form(b: BindingsView, r: ReaderView, mods: Seq<Event>)
    requires
        in_form(r),
    ensures
        in_form(clearing(b, r, mods)),
    decreases mods.len(),
{
    if mods.len() > 0 {
        lemma_clearing_in_form(b, r, mods.drop_last());
        lemma_sending_all_in_form(
            clearing(b, r, mods.drop_last()),
            modifier_outputs(b, mods.last()),
            0,
        );
    }
}

proof fn lemma_emitting_keys_in_form(
    c: ConfigView,
    r: ReaderView,
    keys: Seq<Key>,
    value: i32,
    toggles: bool,
)
    requires
        in_form(r),
    ensures
        in_form(emitting_keys(c, r, keys, value, toggles)),
    decreases keys.len(),
{
    if keys.len() > 0 {
        lemma_emitting_keys_in_form(c, r, keys.drop_last(), value, toggles);
        lemma_toggled_in_form(
            c,
            emitting_keys(c, r, keys.drop_last(), value, toggles),
            Event::Key(keys.last()),
            value,
        );
    }
}

proof fn lemma_emitting_in_form(
    config: Config,
    r: ReaderView,
    keys: Seq<Key>,
    value: i32,
    mods: Seq<Event>,
    release: bool,
    ignore: bool,
    no_pause: bool,
)
    requires
        in_form(r),
    ensures
        in_form(emitting(config, r, keys, value, mods, release, ignore, no_pause)),
{
    let c = config@;
    let freed = released_keys(config.bindings.remap.items(), mods);
    lemma_letting_go_in_form(c, r, freed);
    lemma_clearing_in_form(c.bindings, r, mods);
    lemma_emitting_keys_in_form(c, letting_go(c, r, freed), keys, value, true);
    lemma_emitting_keys_in_form(c, clearing(c.bindings, r, mods), keys, value, false);
    lemma_emitting_keys_in_form(c, r, keys, value, false);
}

proof fn lemma_dropping_in_form(c: ConfigView, r: ReaderView, mods: Seq<Event>)
    requires
        in_form(r),
    ensures
        in_form(dropping(c, r, mods)),
    decreases mods.len(),
{
    if mods.len() > 0 {
        lemma_dropping_in_form(c, r, mods.drop_last());
        lemma_toggled_in_form(c, dropping(c, r, mods.drop_last()), mods.last(), 0);
    }
}

proof fn lemma_settling_in_form(c: ConfigView, r: ReaderView, owed: Option<Seq<Key>>)
    requires
        in_form(r),
    ensures
        in_form(settling(c, r, owed)),
        settling(c, r, owed).modifiers == r.modifiers,
{
    if let Some(keys) = owed {
        lemma_emitting_keys_in_form(c, r, keys, 0, false);
        lemma_emitting_keys_modifiers(c, r, keys, 0);
    }
}

proof fn lemma_emitting_keys_modifiers(c: ConfigView, r: ReaderView, keys: Seq<Key>, value: i32)
    ensures
        emitting_keys(c, r, keys, value, false).modifiers == r.modifiers,
    decreases keys.len(),
{
    if keys.len() > 0 {
        lemma_emitting_keys_modifiers(c, r, keys.drop_last(), value);
    }
}

proof fn lemma_bound_in_form(
    config: Config,
    settings: Settings,
    r: ReaderView,
    raw: RawEvent,
    event: Event,
    value: i32,
    send_zero: bool,
    now: u64,
    owed: Option<Seq<Key>>,
)
    requires
        in_form(r),
    ensures
        in_form(bound(config, settings, r, raw, event, value, send_zero, now, owed)),
{
    let c = config@;
    let b = c.bindings;
    let mods = canonical(r.modifiers);
    let alone = (event, Seq::<Event>::empty());
    let res = resolution(b, event, mods, settings.chain_only);
    lemma_toggled_in_form(c, r, event, value);
    lemma_settling_in_form(c, r, owed);
    if r.gaming_mode && value != 0 && !acts_while_gaming(b, event, res) {
    } else if c.custom_modifiers.contains(event) && b.remap.contains_key(alone) {
        let keys = owed.unwrap_or(b.remap[alone]);
        let sent = remembering(sending_all(r, keys, value), event, keys, value);
        lemma_sending_all_in_form(r, keys, value);
        lemma_toggled_in_form(c, doing(sent, ActionView::Export), event, value);
        lemma_toggled_in_form(c, doing(r, ActionView::Export), event, value);
    } else {
        match res {
            Resolution::Keys { keys, label, no_pause, silent, is_combo, is_fallback, .. } => {
                let noted = noting_keys(r, keys, value, is_combo, label, silent, now);
                let always = no_pause || owed is Some;
                let sent = owed.unwrap_or(keys);
                let empty = !is_fallback && mods.len() == 0;
                let some = !is_fallback && mods.len() > 0;
                let first = emitting(config, noted, sent, value, mods, empty, some, always);
                lemma_emitting_in_form(config, noted, sent, value, mods, empty, some, always);
                let then = canonical(first.modifiers);
                lemma_emitting_in_form(
                    config,
                    first,
                    sent,
                    0,
                    then,
                    !is_fallback && then.len() == 0,
                    !is_fallback && then.len() > 0,
                    always,
                );
            },
            Resolution::Hold { keys } => {
                let always = b.no_pause.contains(hold_combo(event)) || owed is Some;
                let sent = owed.unwrap_or(keys);
                lemma_emitting_in_form(config, r, sent, value, mods, false, false, always);
            },
            Resolution::Command { .. } => {},
            Resolution::Movement { .. } => {},
            Resolution::Unbound => {
                lemma_dropping_in_form(c, r, mods);
                let q = settling(c, r, owed);
                let freed = released_keys(config.bindings.remap.items(), mods);
                lemma_toggled_in_form(c, q, event, value);
                lemma_letting_go_in_form(c, q, freed);
                lemma_toggled_in_form(c, letting_all_go(c, q, freed), event, value);
            },
        }
    }
}

/// Whatever is pressed, repeated or released, the modifiers that are held stay
/// in ascending order, each once. That is the form in which combos are looked
/// up.
pub proof fn law_modifiers_stay_in_form(
    config: Config,
    settings: Settings,
    r: ReaderView,
    raw: RawEvent,
    event: Event,
    value: i32,
    send_zero: bool,
    now: u64,
)
    requires
        in_form(r),
    ensures
        in_form(converted(config, settings, r, raw, event, value, send_zero, now)),
{
    let owed = owed(r, event, value);
    lemma_bound_in_form(config, settings, r, raw, event, value, send_zero, now, owed);
    lemma_bound_in_form(
        config,
        settings,
        forgetting(r, event),
        raw,
        event,
        value,
        send_zero,
        now,
        owed,
    );
}

// ── Laws: pausing and gaming ─────────────────────────────────────────────────

/// Whether nothing was done between two moments but to write the state out.
pub open spec fn quiet(before: ReaderView, after: ReaderView) -> bool {
    &&& before.actions.len() <= after.actions.len()
    &&& forall|i: int|
        0 <= i < before.actions.len() ==> #[trigger] after.actions[i] == before.actions[i]
    &&& forall|i: int|
        before.actions.len() <= i < after.actions.len() ==> #[trigger] after.actions[i]
            == ActionView::Export
}

/// Whether an event does something even while paused: its binding is marked to,
/// it lets go of what was sent before, or it switches to the next layout.
pub open spec fn acts_while_paused(
    config: Config,
    settings: Settings,
    r: ReaderView,
    event: Event,
    value: i32,
) -> bool {
    let c = config@;
    let b = c.bindings;
    let mods = canonical(r.modifiers);
    let alone = (event, Seq::<Event>::empty());
    if owed(r, event, value) is Some {
        true
    } else if c.custom_modifiers.contains(event) && b.remap.contains_key(alone) {
        b.no_pause.contains(alone)
    } else {
        match resolution(b, event, mods, settings.chain_only) {
            Resolution::Keys { no_pause, .. } => no_pause,
            Resolution::Hold { .. } => b.no_pause.contains(hold_combo(event)),
            Resolution::Command { no_pause, .. } => no_pause,
            Resolution::Movement { .. } => false,
            Resolution::Unbound => switches_layout(settings, event, mods, value) || flagged(
                b.no_pause,
                event,
                r.modifiers,
            ),
        }
    }
}

/// While paused nothing is sent, nothing is run and nothing moves. The
/// exceptions are bindings that are marked to act even then, the release of a
/// button that has sent something, and the switch to the next layout.
pub proof fn law_paused_is_quiet(
    config: Config,
    settings: Settings,
    r: ReaderView,
    raw: RawEvent,
    event: Event,
    value: i32,
    send_zero: bool,
    now: u64,
)
    requires
        r.paused,
        !acts_while_paused(config, settings, r, event, value),
    ensures
        ({
            let after = converted(config, settings, r, raw, event, value, send_zero, now);
            &&& quiet(r, after)
            &&& after.cursor_movement == r.cursor_movement
            &&& after.scroll_movement == r.scroll_movement
            &&& after.emitted_outputs == r.emitted_outputs
        }),
{
}

/// `r` paused or not.
pub open spec fn pausing(r: ReaderView, on: bool) -> ReaderView {
    ReaderView { paused: on, ..r }
}

proof fn lemma_sending_all_pausing(r: ReaderView, keys: Seq<Key>, value: i32, on: bool)
    ensures
        sending_all(pausing(r, on), keys, value) == pausing(sending_all(r, keys, value), on),
    decreases keys.len(),
{
    if keys.len() > 0 {
        lemma_sending_all_pausing(r, keys.drop_last(), value, on);
    }
}

proof fn lemma_letting_go_pausing(c: ConfigView, r: ReaderView, keys: Seq<Key>, on: bool)
    ensures
        letting_go(c, pausing(r, on), keys) == pausing(letting_go(c, r, keys), on),
        letting_all_go(c, pausing(r, on), keys) == pausing(letting_all_go(c, r, keys), on),
    decreases keys.len(),
{
    if keys.len() > 0 {
        lemma_letting_go_pausing(c, r, keys.drop_last(), on);
    }
}

proof fn lemma_clearing_pausing(b: BindingsView, r: ReaderView, mods: Seq<Event>, on: bool)
    ensures
        clearing(b, pausing(r, on), mods) == pausing(clearing(b, r, mods), on),
    decreases mods.len(),
{
    if mods.len() > 0 {
        lemma_clearing_pausing(b, r, mods.drop_last(), on);
        lemma_sending_all_pausing(
            clearing(b, r, mods.drop_last()),
            modifier_outputs(b, mods.last()),
            0,
            on,
        );
    }
}

proof fn lemma_emitting_keys_pausing(
    c: ConfigView,
    r: ReaderView,
    keys: Seq<Key>,
    value: i32,
    toggles: bool,
    on: bool,
)
    ensures
        emitting_keys(c, pausing(r, on), keys, value, toggles) == pausing(
            emitting_keys(c, r, keys, value, toggles),
            on,
        ),
    decreases keys.len(),
{
    if keys.len() > 0 {
        lemma_emitting_keys_pausing(c, r, keys.drop_last(), value, toggles, on);
    }
}

proof fn lemma_emitting_pausing(
    config: Config,
    r: ReaderView,
    keys: Seq<Key>,
    value: i32,
    mods: Seq<Event>,
    release: bool,
    ignore: bool,
)
    ensures
        emitting(config, pausing(r, true), keys, value, mods, release, ignore, true) == pausing(
            emitting(config, r, keys, value, mods, release, ignore, true),
            true,
        ),
{
    let c = config@;
    let freed = released_keys(config.bindings.remap.items(), mods);
    lemma_letting_go_pausing(c, r, freed, true);
    lemma_clearing_pausing(c.bindings, r, mods, true);
    lemma_emitting_keys_pausing(c, letting_go(c, r, freed), keys, value, true, true);
    lemma_emitting_keys_pausing(c, clearing(c.bindings, r, mods), keys, value, false, true);
    lemma_emitting_keys_pausing(c, r, keys, value, false, true);
}

proof fn lemma_emitting_twice_pausing(
    config: Config,
    r: ReaderView,
    keys: Seq<Key>,
    value: i32,
    mods: Seq<Event>,
    fallback: bool,
    send_zero: bool,
)
    ensures
        emitting_twice(config, pausing(r, true), keys, value, mods, fallback, send_zero, true)
            == pausing(
            emitting_twice(config, r, keys, value, mods, fallback, send_zero, true),
            true,
        ),
{
    let empty = !fallback && mods.len() == 0;
    let some = !fallback && mods.len() > 0;
    let first = emitting(config, r, keys, value, mods, empty, some, true);
    lemma_emitting_pausing(config, r, keys, value, mods, empty, some);
    let then = canonical(first.modifiers);
    lemma_emitting_pausing(
        config,
        first,
        keys,
        0,
        then,
        !fallback && then.len() == 0,
        !fallback && then.len() > 0,
    );
}

/// A remap that is marked to act while paused does then what it does otherwise.
pub proof fn law_marked_remaps_ignore_the_pause(
    config: Config,
    settings: Settings,
    r: ReaderView,
    raw: RawEvent,
    event: Event,
    value: i32,
    send_zero: bool,
    now: u64,
)
    requires
        !r.paused,
        !(config@.custom_modifiers.contains(event) && config@.bindings.remap.contains_key(
            (event, Seq::<Event>::empty()),
        )),
        resolution(
            config@.bindings,
            event,
            canonical(r.modifiers),
            settings.chain_only,
        ) matches Resolution::Keys { no_pause, .. } && no_pause,
    ensures
        converted(config, settings, pausing(r, true), raw, event, value, send_zero, now)
            == pausing(
            converted(config, settings, r, raw, event, value, send_zero, now),
            true,
        ),
{
    let b = config@.bindings;
    let mods = canonical(r.modifiers);
    let res = resolution(b, event, mods, settings.chain_only);
    let owed = owed(r, event, value);
    let q = if owed is Some {
        forgetting(r, event)
    } else {
        r
    };
    let p = pausing(q, true);
    if r.gaming_mode && value != 0 && !acts_while_gaming(b, event, res) {
        assert(toggled(config@, p, event, value) == pausing(
            toggled(config@, q, event, value),
            true,
        ));
    } else {
        match res {
            Resolution::Keys { keys, label, silent, is_combo, is_fallback, .. } => {
                let noted = noting_keys(q, keys, value, is_combo, label, silent, now);
                let sent = owed.unwrap_or(keys);
                lemma_emitting_twice_pausing(
                    config,
                    noted,
                    sent,
                    value,
                    mods,
                    is_fallback,
                    send_zero,
                );
                assert(noting_keys(p, keys, value, is_combo, label, silent, now) == pausing(
                    noted,
                    true,
                ));
                let out = emitting_twice(
                    config,
                    noted,
                    sent,
                    value,
                    mods,
                    is_fallback,
                    send_zero,
                    true,
                );
                assert(remembering(pausing(out, true), event, keys, value) == pausing(
                    remembering(out, event, keys, value),
                    true,
                ));
            },
            _ => {},
        }
    }
}

/// In gaming mode a press or a repeat is swallowed unless its binding is marked
/// to act while gaming: nothing is sent, nothing is run, nothing moves. Only the
/// modifiers that are held are kept up to date.
pub proof fn law_gaming_mode_is_quiet(
    config: Config,
    settings: Settings,
    r: ReaderView,
    raw: RawEvent,
    event: Event,
    value: i32,
    send_zero: bool,
    now: u64,
)
    requires
        r.gaming_mode,
        value != 0,
        !acts_while_gaming(
            config@.bindings,
            event,
            resolution(
                config@.bindings,
                event,
                canonical(r.modifiers),
                settings.chain_only,
            ),
        ),
    ensures
        ({
            let after = converted(config, settings, r, raw, event, value, send_zero, now);
            &&& quiet(r, after)
            &&& after == (ReaderView {
                actions: after.actions,
                modifiers: after.modifiers,
                ..r
            })
            &&& config@.all_modifiers.contains(event) ==> after.modifiers == held_after(
                r.modifiers,
                event,
                value,
            )
        }),
{
}

/// `r` in gaming mode or not.
pub open spec fn gaming(r: ReaderView, on: bool) -> ReaderView {
    ReaderView { gaming_mode: on, ..r }
}

proof fn lemma_sending_all_gaming(r: ReaderView, keys: Seq<Key>, value: i32, on: bool)
    ensures
        sending_all(gaming(r, on), keys, value) == gaming(sending_all(r, keys, value), on),
    decreases keys.len(),
{
    if keys.len() > 0 {
        lemma_sending_all_gaming(r, keys.drop_last(), value, on);
    }
}

proof fn lemma_letting_go_gaming(c: ConfigView, r: ReaderView, keys: Seq<Key>, on: bool)
    ensures
        letting_go(c, gaming(r, on), keys) == gaming(letting_go(c, r, keys), on),
        letting_all_go(c, gaming(r, on), keys) == gaming(letting_all_go(c, r, keys), on),
    decreases keys.len(),
{
    if keys.len() > 0 {
        lemma_letting_go_gaming(c, r, keys.drop_last(), on);
    }
}

proof fn lemma_clearing_gaming(b: BindingsView, r: ReaderView, mods: Seq<Event>, on: bool)
    ensures
        clearing(b, gaming(r, on), mods) == gaming(clearing(b, r, mods), on),
    decreases mods.len(),
{
    if mods.len() > 0 {
        lemma_clearing_gaming(b, r, mods.drop_last(), on);
        lemma_sending_all_gaming(
            clearing(b, r, mods.drop_last()),
            modifier_outputs(b, mods.last()),
            0,
            on,
        );
    }
}

proof fn lemma_emitting_keys_gaming(
    c: ConfigView,
    r: ReaderView,
    keys: Seq<Key>,
    value: i32,
    toggles: bool,
    on: bool,
)
    ensures
        emitting_keys(c, gaming(r, on), keys, value, toggles) == gaming(
            emitting_keys(c, r, keys, value, toggles),
            on,
        ),
    decreases keys.len(),
{
    if keys.len() > 0 {
        lemma_emitting_keys_gaming(c, r, keys.drop_last(), value, toggles, on);
    }
}

proof fn lemma_emitting_gaming(
    config: Config,
    r: ReaderView,
    keys: Seq<Key>,
    value: i32,
    mods: Seq<Event>,
    release: bool,
    ignore: bool,
    no_pause: bool,
    on: bool,
)
    ensures
        emitting(config, gaming(r, on), keys, value, mods, release, ignore, no_pause) == gaming(
            emitting(config, r, keys, value, mods, release, ignore, no_pause),
            on,
        ),
{
    let c = config@;
    let freed = released_keys(config.bindings.remap.items(), mods);
    lemma_letting_go_gaming(c, r, freed, on);
    lemma_clearing_gaming(c.bindings, r, mods, on);
    lemma_emitting_keys_gaming(c, letting_go(c, r, freed), keys, value, true, on);
    lemma_emitting_keys_gaming(c, clearing(c.bindings, r, mods), keys, value, false, on);
    lemma_emitting_keys_gaming(c, r, keys, value, false, on);
}

proof fn lemma_dropping_gaming(c: ConfigView, r: ReaderView, mods: Seq<Event>, on: bool)
    ensures
        dropping(c, gaming(r, on), mods) == gaming(dropping(c, r, mods), on),
    decreases mods.len(),
{
    if mods.len() > 0 {
        lemma_dropping_gaming(c, r, mods.drop_last(), on);
    }
}

/// A release does in gaming mode what it does otherwise, so that no button is
/// left stuck.
pub proof fn law_release_is_never_swallowed(
    config: Config,
    settings: Settings,
    r: ReaderView,
    raw: RawEvent,
    event: Event,
    send_zero: bool,
    now: u64,
)
    ensures
        converted(config, settings, gaming(r, true), raw, event, 0, send_zero, now) == gaming(
            converted(config, settings, gaming(r, false), raw, event, 0, send_zero, now),
            true,
        ),
{
    let c = config@;
    let b = c.bindings;
    let owed = owed(r, event, 0);
    let q = if owed is Some {
        forgetting(gaming(r, false), event)
    } else {
        gaming(r, false)
    };
    assert(gaming(r, true) == gaming(gaming(r, false), true));
    let mods = canonical(r.modifiers);
    let alone = (event, Seq::<Event>::empty());
    let res = resolution(b, event, mods, settings.chain_only);
    if let Some(keys) = owed {
        lemma_emitting_keys_gaming(c, q, keys, 0, false, true);
    }
    let settled = settling(c, q, owed);
    if c.custom_modifiers.contains(event) && b.remap.contains_key(alone) {
        lemma_sending_all_gaming(q, owed.unwrap_or(b.remap[alone]), 0, true);
    } else {
        match res {
            Resolution::Keys { keys, label, no_pause, silent, is_combo, is_fallback, .. } => {
                let noted = noting_keys(q, keys, 0, is_combo, label, silent, now);
                let always = no_pause || owed is Some;
                let sent = owed.unwrap_or(keys);
                let empty = !is_fallback && mods.len() == 0;
                let some = !is_fallback && mods.len() > 0;
                lemma_emitting_gaming(config, noted, sent, 0, mods, empty, some, always, true);
                let first = emitting(config, noted, sent, 0, mods, empty, some, always);
                let then = canonical(first.modifiers);
                lemma_emitting_gaming(
                    config,
                    first,
                    sent,
                    0,
                    then,
                    !is_fallback && then.len() == 0,
                    !is_fallback && then.len() > 0,
                    always,
                    true,
                );
                assert(noting_keys(gaming(q, true), keys, 0, is_combo, label, silent, now)
                    == gaming(noted, true));
            },
            Resolution::Hold { keys } => {
                let always = b.no_pause.contains(hold_combo(event)) || owed is Some;
                let sent = owed.unwrap_or(keys);
                lemma_emitting_gaming(config, q, sent, 0, mods, false, false, always, true);
            },
            Resolution::Command { .. } => {},
            Resolution::Movement { .. } => {},
            Resolution::Unbound => {
                lemma_dropping_gaming(c, q, mods, true);
                lemma_letting_go_gaming(
                    c,
                    settled,
                    released_keys(config.bindings.remap.items(), mods),
                    true,
                );
            },
        }
    }
}

// ── Laws: buttons and what they sent ─────────────────────────────────────────

/// Whether what is known of the buttons is the same in two states.
spec fn same_buttons(a: ReaderView, b: ReaderView) -> bool {
    a.held_keys == b.held_keys && a.emitted_outputs == b.emitted_outputs
}

proof fn lemma_sending_all_buttons(r: ReaderView, keys: Seq<Key>, value: i32)
    ensures
        same_buttons(sending_all(r, keys, value), r),
    decreases keys.len(),
{
    if keys.len() > 0 {
        lemma_sending_all_buttons(r, keys.drop_last(), value);
    }
}

proof fn lemma_letting_go_buttons(c: ConfigView, r: ReaderView, keys: Seq<Key>)
    ensures
        same_buttons(letting_go(c, r, keys), r),
        same_buttons(letting_all_go(c, r, keys), r),
    decreases keys.len(),
{
    if keys.len() > 0 {
        lemma_letting_go_buttons(c, r, keys.drop_last());
    }
}

proof fn lemma_clearing_buttons(b: BindingsView, r: ReaderView, mods: Seq<Event>)
    ensures
        same_buttons(clearing(b, r, mods), r),
    decreases mods.len(),
{
    if mods.len() > 0 {
        lemma_clearing_buttons(b, r, mods.drop_last());
        lemma_sending_all_buttons(
            clearing(b, r, mods.drop_last()),
            modifier_outputs(b, mods.last()),
            0,
        );
    }
}

proof fn lemma_emitting_keys_buttons(
    c: ConfigView,
    r: ReaderView,
    keys: Seq<Key>,
    value: i32,
    toggles: bool,
)
    ensures
        same_buttons(emitting_keys(c, r, keys, value, toggles), r),
    decreases keys.len(),
{
    if keys.len() > 0 {
        lemma_emitting_keys_buttons(c, r, keys.drop_last(), value, toggles);
    }
}

proof fn lemma_emitting_buttons(
    config: Config,
    r: ReaderView,
    keys: Seq<Key>,
    value: i32,
    mods: Seq<Event>,
    release: bool,
    ignore: bool,
    no_pause: bool,
)
    ensures
        same_buttons(emitting(config, r, keys, value, mods, release, ignore, no_pause), r),
{
    let c = config@;
    let freed = released_keys(config.bindings.remap.items(), mods);
    lemma_letting_go_buttons(c, r, freed);
    lemma_clearing_buttons(c.bindings, r, mods);
    lemma_emitting_keys_buttons(c, letting_go(c, r, freed), keys, value, true);
    lemma_emitting_keys_buttons(c, clearing(c.bindings, r, mods), keys, value, false);
    lemma_emitting_keys_buttons(c, r, keys, value, false);
}

proof fn lemma_dropping_buttons(c: ConfigView, r: ReaderView, mods: Seq<Event>)
    ensures
        same_buttons(dropping(c, r, mods), r),
    decreases mods.len(),
{
    if mods.len() > 0 {
        lemma_dropping_buttons(c, r, mods.drop_last());
    }
}

proof fn lemma_settling_buttons(c: ConfigView, r: ReaderView, owed: Option<Seq<Key>>)
    ensures
        same_buttons(settling(c, r, owed), r),
{
    if let Some(keys) = owed {
        lemma_emitting_keys_buttons(c, r, keys, 0, false);
    }
}

/// What a binding does leaves the held buttons as they are, and what was sent
/// for the others.
proof fn lemma_bound_buttons(
    config: Config,
    settings: Settings,
    r: ReaderView,
    raw: RawEvent,
    event: Event,
    value: i32,
    send_zero: bool,
    now: u64,
    owed: Option<Seq<Key>>,
)
    ensures
        ({
            let after = bound(config, settings, r, raw, event, value, send_zero, now, owed);
            &&& after.held_keys == r.held_keys
            &&& after.emitted_outputs == r.emitted_outputs || {
                &&& event is Key
                &&& value != 0
                &&& after.emitted_outputs.contains_key(event)
                &&& after.emitted_outputs == r.emitted_outputs.insert(
                    event,
                    after.emitted_outputs[event],
                )
            }
        }),
{
    let c = config@;
    let b = c.bindings;
    let mods = canonical(r.modifiers);
    let alone = (event, Seq::<Event>::empty());
    let res = resolution(b, event, mods, settings.chain_only);
    lemma_settling_buttons(c, r, owed);
    if r.gaming_mode && value != 0 && !acts_while_gaming(b, event, res) {
    } else if c.custom_modifiers.contains(event) && b.remap.contains_key(alone) {
        lemma_sending_all_buttons(r, owed.unwrap_or(b.remap[alone]), value);
    } else {
        match res {
            Resolution::Keys { keys, label, no_pause, silent, is_combo, is_fallback, .. } => {
                let noted = noting_keys(r, keys, value, is_combo, label, silent, now);
                let always = no_pause || owed is Some;
                let sent = owed.unwrap_or(keys);
                let empty = !is_fallback && mods.len() == 0;
                let some = !is_fallback && mods.len() > 0;
                let first = emitting(config, noted, sent, value, mods, empty, some, always);
                lemma_emitting_buttons(config, noted, sent, value, mods, empty, some, always);
                let then = canonical(first.modifiers);
                lemma_emitting_buttons(
                    config,
                    first,
                    sent,
                    0,
                    then,
                    !is_fallback && then.len() == 0,
                    !is_fallback && then.len() > 0,
                    always,
                );
            },
            Resolution::Hold { keys } => {
                let always = b.no_pause.contains(hold_combo(event)) || owed is Some;
                let sent = owed.unwrap_or(keys);
                lemma_emitting_buttons(config, r, sent, value, mods, false, false, always);
            },
            Resolution::Command { .. } => {},
            Resolution::Movement { .. } => {},
            Resolution::Unbound => {
                let q = settling(c, r, owed);
                lemma_dropping_buttons(c, r, mods);
                lemma_letting_go_buttons(c, q, released_keys(config.bindings.remap.items(), mods));
            },
        }
    }
}

/// Whatever an event does, the held buttons are in ascending order afterwards,
/// each once: a key that went down is among them, one that went up is not, and
/// nothing else changes. Events other than keys change nothing.
pub proof fn law_held_buttons_follow_events(
    config: Config,
    settings: Settings,
    r: ReaderView,
    raw: RawEvent,
    event: Event,
    value: i32,
    send_zero: bool,
    now: u64,
)
    requires
        ascending::<Event>(r.held_keys),
    ensures
        ({
            let held = converted(
                config,
                settings,
                tracking(r, event, value),
                raw,
                event,
                value,
                send_zero,
                now,
            ).held_keys;
            &&& ascending::<Event>(held)
            &&& forall|x: Event| #[trigger]
                held.contains(x) <==> (if event is Key && x == event && value == 1 {
                    true
                } else if event is Key && x == event && value == 0 {
                    false
                } else {
                    r.held_keys.contains(x)
                })
            &&& !(event is Key) || (value != 0 && value != 1) ==> held == r.held_keys
        }),
{
    let t = tracking(r, event, value);
    let owed = owed(t, event, value);
    lemma_bound_buttons(config, settings, t, raw, event, value, send_zero, now, owed);
    lemma_bound_buttons(
        config,
        settings,
        forgetting(t, event),
        raw,
        event,
        value,
        send_zero,
        now,
        owed,
    );
    law_held_buttons(r.held_keys, event, value);
}

/// The release of a key.
pub open spec fn key_up(k: Key) -> ActionView {
    ActionView::Send { sink: Sink::Keys, event: RawEvent { kind: EV_KEY, code: k.0, value: 0 } }
}

/// Whether more was done between two moments, after what was done before.
pub open spec fn continues(before: ReaderView, after: ReaderView) -> bool {
    &&& before.actions.len() <= after.actions.len()
    &&& forall|i: int|
        0 <= i < before.actions.len() ==> #[trigger] after.actions[i] == before.actions[i]
}

/// Whether a key was let go between two moments.
pub open spec fn was_let_go(before: ReaderView, after: ReaderView, k: Key) -> bool {
    exists|i: int|
        before.actions.len() <= i < after.actions.len() && #[trigger] after.actions[i] == key_up(k)
}

proof fn lemma_let_go_lasts(a: ReaderView, b: ReaderView, c: ReaderView, d: ReaderView, k: Key)
    requires
        a.actions.len() <= b.actions.len(),
        was_let_go(b, c, k),
        continues(c, d),
    ensures
        was_let_go(a, d, k),
{
    let i = choose|i: int|
        b.actions.len() <= i < c.actions.len() && #[trigger] c.actions[i] == key_up(k);
    assert(d.actions[i] == key_up(k));
}

proof fn lemma_sending_all_lets_go(r: ReaderView, keys: Seq<Key>, value: i32)
    ensures
        continues(r, sending_all(r, keys, value)),
        value == 0 ==> forall|k: Key| #[trigger]
            keys.contains(k) ==> was_let_go(r, sending_all(r, keys, value), k),
    decreases keys.len(),
{
    if keys.len() > 0 {
        let init = keys.drop_last();
        let before = sending_all(r, init, value);
        let after = sending_all(r, keys, value);
        lemma_sending_all_lets_go(r, init, value);
        if value == 0 {
            assert forall|k: Key| #[trigger] keys.contains(k) implies was_let_go(r, after, k) by {
                let j = choose|j: int| 0 <= j < keys.len() && keys[j] == k;
                if j < init.len() {
                    assert(init[j] == k);
                    assert(init.contains(k));
                    lemma_let_go_lasts(r, r, before, after, k);
                } else {
                    assert(after.actions[before.actions.len() as int] == key_up(k));
                }
            }
        }
    }
}

proof fn lemma_letting_go_continues(c: ConfigView, r: ReaderView, keys: Seq<Key>)
    ensures
        continues(r, letting_go(c, r, keys)),
        continues(r, letting_all_go(c, r, keys)),
    decreases keys.len(),
{
    if keys.len() > 0 {
        lemma_letting_go_continues(c, r, keys.drop_last());
    }
}

proof fn lemma_clearing_continues(b: BindingsView, r: ReaderView, mods: Seq<Event>)
    ensures
        continues(r, clearing(b, r, mods)),
    decreases mods.len(),
{
    if mods.len() > 0 {
        lemma_clearing_continues(b, r, mods.drop_last());
        lemma_sending_all_lets_go(
            clearing(b, r, mods.drop_last()),
            modifier_outputs(b, mods.last()),
            0,
        );
    }
}

proof fn lemma_emitting_keys_lets_go(
    c: ConfigView,
    r: ReaderView,
    keys: Seq<Key>,
    value: i32,
    toggles: bool,
)
    ensures
        continues(r, emitting_keys(c, r, keys, value, toggles)),
        value == 0 ==> forall|k: Key| #[trigger]
            keys.contains(k) && !c.custom_modifiers.contains(Event::Key(k)) ==> was_let_go(
                r,
                emitting_keys(c, r, keys, value, toggles),
                k,
            ),
    decreases keys.len(),
{
    if keys.len() > 0 {
        let init = keys.drop_last();
        let before = emitting_keys(c, r, init, value, toggles);
        let after = emitting_keys(c, r, keys, value, toggles);
        lemma_emitting_keys_lets_go(c, r, init, value, toggles);
        assert(continues(before, after));
        if value == 0 {
            assert forall|k: Key| #[trigger]
                keys.contains(k) && !c.custom_modifiers.contains(
                    Event::Key(k),
                ) implies was_let_go(r, after, k) by {
                let j = choose|j: int| 0 <= j < keys.len() && keys[j] == k;
                if j < init.len() {
                    assert(init[j] == k);
                    assert(init.contains(k));
                    lemma_let_go_lasts(r, r, before, after, k);
                } else {
                    assert(after.actions[after.actions.len() - 1] == key_up(k));
                }
            }
        }
    }
}

proof fn lemma_emitting_lets_go(
    config: Config,
    r: ReaderView,
    keys: Seq<Key>,
    value: i32,
    mods: Seq<Event>,
    release: bool,
    ignore: bool,
)
    ensures
        continues(r, emitting(config, r, keys, value, mods, release, ignore, true)),
        value == 0 ==> forall|k: Key| #[trigger]
            keys.contains(k) && !config@.custom_modifiers.contains(Event::Key(k)) ==> was_let_go(
                r,
                emitting(config, r, keys, value, mods, release, ignore, true),
                k,
            ),
{
    let c = config@;
    let freed = released_keys(config.bindings.remap.items(), mods);
    let after = emitting(config, r, keys, value, mods, release, ignore, true);
    lemma_letting_go_continues(c, r, freed);
    lemma_clearing_continues(c.bindings, r, mods);
    let (before, toggles) = if release && value != 2 {
        (letting_go(c, r, freed), true)
    } else if ignore {
        (clearing(c.bindings, r, mods), false)
    } else {
        (r, false)
    };
    lemma_emitting_keys_lets_go(c, before, keys, value, toggles);
    assert(after == emitting_keys(c, before, keys, value, toggles));
    if value == 0 {
        assert forall|k: Key| #[trigger]
            keys.contains(k) && !c.custom_modifiers.contains(Event::Key(k)) implies was_let_go(
            r,
            after,
            k,
        ) by {
            lemma_let_go_lasts(r, before, after, after, k);
        }
    }
}

proof fn lemma_unmapped_continues(
    config: Config,
    r: ReaderView,
    raw: RawEvent,
    event: Event,
    value: i32,
    mods: Seq<Event>,
)
    ensures
        continues(r, unmapped(config, r, raw, event, value, mods)),
{
    lemma_letting_go_continues(
        config@,
        r,
        released_keys(config.bindings.remap.items(), mods),
    );
}

/// A release lets go of the keys that were sent last for the button: whatever
/// the button is bound to by then, whichever modifiers have come or gone since,
/// whether paused or not. They are then forgotten, and what was sent for other
/// buttons is not. (A key that is a custom modifier has only gone down as a tap,
/// and is left alone.)
pub proof fn law_release_lets_go_of_what_was_sent(
    config: Config,
    settings: Settings,
    r: ReaderView,
    raw: RawEvent,
    event: Event,
    send_zero: bool,
    now: u64,
)
    requires
        r.emitted_outputs.contains_key(event),
    ensures
        ({
            let after = converted(config, settings, r, raw, event, 0, send_zero, now);
            &&& continues(r, after)
            &&& forall|k: Key| #[trigger]
                r.emitted_outputs[event].contains(k) && !config@.custom_modifiers.contains(
                    Event::Key(k),
                ) ==> was_let_go(r, after, k)
            &&& after.emitted_outputs == r.emitted_outputs.remove(event)
        }),
{
    let c = config@;
    let b = c.bindings;
    let sent = r.emitted_outputs[event];
    let owed = Some(sent);
    let q = forgetting(r, event);
    let after = converted(config, settings, r, raw, event, 0, send_zero, now);
    let mods = canonical(r.modifiers);
    let alone = (event, Seq::<Event>::empty());
    let res = resolution(b, event, mods, settings.chain_only);
    lemma_bound_buttons(config, settings, q, raw, event, 0, send_zero, now, owed);
    lemma_emitting_keys_lets_go(c, q, sent, 0, false);
    let settled = settling(c, q, owed);
    let (before, middle) = if c.custom_modifiers.contains(event) && b.remap.contains_key(alone) {
        lemma_sending_all_lets_go(q, sent, 0);
        (q, sending_all(q, sent, 0))
    } else {
        match res {
            Resolution::Keys { keys, label, silent, is_combo, is_fallback, .. } => {
                let noted = noting_keys(q, keys, 0, is_combo, label, silent, now);
                let empty = !is_fallback && mods.len() == 0;
                let some = !is_fallback && mods.len() > 0;
                lemma_emitting_lets_go(config, noted, sent, 0, mods, empty, some);
                let first = emitting(config, noted, sent, 0, mods, empty, some, true);
                let then = canonical(first.modifiers);
                lemma_emitting_lets_go(
                    config,
                    first,
                    sent,
                    0,
                    then,
                    !is_fallback && then.len() == 0,
                    !is_fallback && then.len() > 0,
                );
                (noted, first)
            },
            Resolution::Hold { .. } => {
                lemma_emitting_lets_go(config, q, sent, 0, mods, false, false);
                (q, emitting(config, q, sent, 0, mods, false, false, true))
            },
            Resolution::Command { .. } => (q, settled),
            Resolution::Movement { .. } => (q, settled),
            Resolution::Unbound => {
                lemma_unmapped_continues(config, settled, raw, event, 0, mods);
                (q, settled)
            },
        }
    };
    assert(continues(r, before));
    assert(continues(before, middle));
    assert(continues(middle, after));
    assert forall|k: Key| #[trigger]
        sent.contains(k) && !c.custom_modifiers.contains(Event::Key(k)) implies was_let_go(
        r,
        after,
        k,
    ) by {
        assert(was_let_go(before, middle, k));
        lemma_let_go_lasts(r, before, middle, after, k);
    }
}

/// What a press sends for a button is remembered for its release. Events of
/// other buttons leave it alone.
pub proof fn law_what_is_sent_is_remembered(
    config: Config,
    settings: Settings,
    r: ReaderView,
    raw: RawEvent,
    event: Event,
    value: i32,
    now: u64,
    other: Event,
)
    requires
        event is Key,
        value != 0,
        other != event,
    ensures
        ({
            let b = config@.bindings;
            let res = resolution(b, event, canonical(r.modifiers), settings.chain_only);
            let alone = (event, Seq::<Event>::empty());
            let after = converted(config, settings, r, raw, event, value, false, now);
            let intercepted = config@.custom_modifiers.contains(event) && b.remap.contains_key(
                alone,
            );
            &&& (!r.gaming_mode || acts_while_gaming(b, event, res)) && (!r.paused
                || acts_while_paused(config, settings, r, event, value)) ==> {
                &&& intercepted ==> after.emitted_outputs == r.emitted_outputs.insert(
                    event,
                    b.remap[alone],
                )
                &&& !intercepted ==> (res matches Resolution::Keys { keys, .. } ==> {
                    after.emitted_outputs == r.emitted_outputs.insert(event, keys)
                })
                &&& !intercepted ==> (res matches Resolution::Hold { keys } ==> {
                    after.emitted_outputs == r.emitted_outputs.insert(event, keys)
                })
            }
            &&& after.emitted_outputs.contains_key(other) == r.emitted_outputs.contains_key(other)
            &&& r.emitted_outputs.contains_key(other) ==> after.emitted_outputs[other]
                == r.emitted_outputs[other]
        }),
{
    let c = config@;
    let b = c.bindings;
    let mods = canonical(r.modifiers);
    let alone = (event, Seq::<Event>::empty());
    lemma_bound_buttons(config, settings, r, raw, event, value, false, now, None);
    if c.custom_modifiers.contains(event) && b.remap.contains_key(alone) {
        lemma_sending_all_buttons(r, b.remap[alone], value);
    } else {
        match resolution(b, event, mods, settings.chain_only) {
            Resolution::Keys { keys, label, no_pause, silent, is_combo, is_fallback, .. } => {
                let noted = noting_keys(r, keys, value, is_combo, label, silent, now);
                let empty = !is_fallback && mods.len() == 0;
                let some = !is_fallback && mods.len() > 0;
                lemma_emitting_buttons(config, noted, keys, value, mods, empty, some, no_pause);
            },
            Resolution::Hold { keys } => {
                let no_pause = b.no_pause.contains(hold_combo(event));
                lemma_emitting_buttons(config, r, keys, value, mods, false, false, no_pause);
            },
            _ => {},
        }
    }
}

// ── Laws: what goes out ──────────────────────────────────────────────────────

/// Movements go where their names say. Up and left are the negative directions,
/// down and right the positive ones, of the pointer and of scrolling alike; a
/// release stops the direction, and the other pair is not touched.
pub proof fn law_movements_go_their_way(r: ReaderView, value: i32)
    requires
        0 <= value <= 1,
    ensures
        moving(r, Relative::Cursor(Cursor::CURSOR_UP), value) == (ReaderView {
            cursor_movement: (r.cursor_movement.0, (0 - value) as i32),
            ..r
        }),
        moving(r, Relative::Cursor(Cursor::CURSOR_DOWN), value) == (ReaderView {
            cursor_movement: (r.cursor_movement.0, value),
            ..r
        }),
        moving(r, Relative::Cursor(Cursor::CURSOR_LEFT), value) == (ReaderView {
            cursor_movement: ((0 - value) as i32, r.cursor_movement.1),
            ..r
        }),
        moving(r, Relative::Cursor(Cursor::CURSOR_RIGHT), value) == (ReaderView {
            cursor_movement: (value, r.cursor_movement.1),
            ..r
        }),
        moving(r, Relative::Scroll(Scroll::SCROLL_UP), value) == (ReaderView {
            scroll_movement: (r.scroll_movement.0, (0 - value) as i32),
            ..r
        }),
        moving(r, Relative::Scroll(Scroll::SCROLL_DOWN), value) == (ReaderView {
            scroll_movement: (r.scroll_movement.0, value),
            ..r
        }),
        moving(r, Relative::Scroll(Scroll::SCROLL_LEFT), value) == (ReaderView {
            scroll_movement: ((0 - value) as i32, r.scroll_movement.1),
            ..r
        }),
        moving(r, Relative::Scroll(Scroll::SCROLL_RIGHT), value) == (ReaderView {
            scroll_movement: (value, r.scroll_movement.1),
            ..r
        }),
{
}

/// A button that a movement is bound to moves that way while it is held, and
/// stops when it is let go. Nothing is sent for it.
pub proof fn law_bound_movement_follows_its_button(
    config: Config,
    settings: Settings,
    r: ReaderView,
    raw: RawEvent,
    event: Event,
    value: i32,
    send_zero: bool,
    now: u64,
)
    requires
        0 <= value <= 1,
        !r.paused,
        !r.gaming_mode,
        !r.emitted_outputs.contains_key(event),
        ({
            let b = config@.bindings;
            let mods = canonical(r.modifiers);
            &&& b.movements.contains_key((event, mods))
            &&& !b.commands.contains_key((event, mods))
            &&& forall|c: ComboView| #[trigger] b.remap.contains_key(c) ==> c.0 != event
        }),
    ensures
        ({
            let m = config@.bindings.movements[(event, canonical(r.modifiers))];
            let after = converted(config, settings, r, raw, event, value, send_zero, now);
            let cursor = after.cursor_movement;
            let scroll = after.scroll_movement;
            &&& after == (ReaderView { cursor_movement: cursor, scroll_movement: scroll, ..r })
            &&& m == Relative::Cursor(Cursor::CURSOR_UP) ==> cursor == (
                r.cursor_movement.0,
                (0 - value) as i32,
            ) && scroll == r.scroll_movement
            &&& m == Relative::Cursor(Cursor::CURSOR_DOWN) ==> cursor == (
                r.cursor_movement.0,
                value,
            ) && scroll == r.scroll_movement
            &&& m == Relative::Cursor(Cursor::CURSOR_LEFT) ==> cursor == (
                (0 - value) as i32,
                r.cursor_movement.1,
            ) && scroll == r.scroll_movement
            &&& m == Relative::Cursor(Cursor::CURSOR_RIGHT) ==> cursor == (
                value,
                r.cursor_movement.1,
            ) && scroll == r.scroll_movement
            &&& m == Relative::Scroll(Scroll::SCROLL_UP) ==> scroll == (
                r.scroll_movement.0,
                (0 - value) as i32,
            ) && cursor == r.cursor_movement
            &&& m == Relative::Scroll(Scroll::SCROLL_DOWN) ==> scroll == (
                r.scroll_movement.0,
                value,
            ) && cursor == r.cursor_movement
            &&& m == Relative::Scroll(Scroll::SCROLL_LEFT) ==> scroll == (
                (0 - value) as i32,
                r.scroll_movement.1,
            ) && cursor == r.cursor_movement
            &&& m == Relative::Scroll(Scroll::SCROLL_RIGHT) ==> scroll == (
                value,
                r.scroll_movement.1,
            ) && cursor == r.cursor_movement
        }),
{
    let b = config@.bindings;
    let alone = (event, Seq::<Event>::empty());
    assert(!b.remap.contains_key(alone)) by {
        if b.remap.contains_key(alone) {
            assert(alone.0 != event);
        }
    }
    let hold = (event, seq![Event::Hold]);
    assert(!b.remap.contains_key(hold)) by {
        if b.remap.contains_key(hold) {
            assert(hold.0 != event);
        }
    }
    let c = (event, canonical(r.modifiers));
    assert(!b.remap.contains_key(c)) by {
        if b.remap.contains_key(c) {
            assert(c.0 != event);
        }
    }
}

proof fn lemma_sending_all_exact(r: ReaderView, keys: Seq<Key>, value: i32)
    ensures
        sending_all(r, keys, value).actions == r.actions + Seq::new(
            keys.len(),
            |i: int|
                ActionView::Send {
                    sink: Sink::Keys,
                    event: RawEvent { kind: 1, code: keys[i].0, value },
                },
        ),
        sending_all(r, keys, value) == (ReaderView {
            actions: sending_all(r, keys, value).actions,
            ..r
        }),
    decreases keys.len(),
{
    let list = Seq::new(
        keys.len(),
        |i: int|
            ActionView::Send {
                sink: Sink::Keys,
                event: RawEvent { kind: 1, code: keys[i].0, value },
            },
    );
    if keys.len() > 0 {
        lemma_sending_all_exact(r, keys.drop_last(), value);
    }
    assert(sending_all(r, keys, value).actions =~= r.actions + list);
}

proof fn lemma_emitting_keys_exact(c: ConfigView, r: ReaderView, keys: Seq<Key>, value: i32)
    requires
        forall|k: Key| #[trigger] keys.contains(k) ==> !c.custom_modifiers.contains(Event::Key(k)),
    ensures
        emitting_keys(c, r, keys, value, false).actions == r.actions + Seq::new(
            keys.len(),
            |i: int|
                ActionView::Send {
                    sink: Sink::Keys,
                    event: RawEvent { kind: 1, code: keys[i].0, value },
                },
        ),
        keys.len() > 0 ==> emitting_keys(c, r, keys, value, false).modifier_was_activated,
    decreases keys.len(),
{
    let list = Seq::new(
        keys.len(),
        |i: int|
            ActionView::Send {
                sink: Sink::Keys,
                event: RawEvent { kind: 1, code: keys[i].0, value },
            },
    );
    if keys.len() > 0 {
        lemma_init_has_no_custom(c, keys);
        lemma_emitting_keys_exact(c, r, keys.drop_last(), value);
    }
    assert(emitting_keys(c, r, keys, value, false).actions =~= r.actions + list);
}

proof fn lemma_init_has_no_custom(c: ConfigView, keys: Seq<Key>)
    requires
        keys.len() > 0,
        forall|k: Key| #[trigger] keys.contains(k) ==> !c.custom_modifiers.contains(Event::Key(k)),
    ensures
        forall|k: Key| #[trigger]
            keys.drop_last().contains(k) ==> !c.custom_modifiers.contains(Event::Key(k)),
        !c.custom_modifiers.contains(Event::Key(keys.last())),
{
    let init = keys.drop_last();
    assert forall|k: Key| #[trigger] init.contains(k) implies !c.custom_modifiers.contains(
        Event::Key(k),
    ) by {
        let j = choose|j: int| 0 <= j < init.len() && init[j] == k;
        assert(keys[j] == k);
        assert(keys.contains(k));
    }
    assert(keys[keys.len() - 1] == keys.last());
    assert(keys.contains(keys.last()));
}

proof fn lemma_emitting_keys_toggling(c: ConfigView, r: ReaderView, keys: Seq<Key>, value: i32)
    requires
        forall|k: Key| #[trigger] keys.contains(k) ==> !c.custom_modifiers.contains(Event::Key(k)),
    ensures
        emitting_keys(c, r, keys, value, true).actions == r.actions + Seq::new(
            2 * keys.len(),
            |i: int|
                if i % 2 == 0 {
                    ActionView::Export
                } else {
                    ActionView::Send {
                        sink: Sink::Keys,
                        event: RawEvent { kind: 1, code: keys[i / 2].0, value },
                    }
                },
        ),
        keys.len() > 0 ==> emitting_keys(c, r, keys, value, true).modifier_was_activated,
    decreases keys.len(),
{
    let list = Seq::new(
        2 * keys.len(),
        |i: int|
            if i % 2 == 0 {
                ActionView::Export
            } else {
                ActionView::Send {
                    sink: Sink::Keys,
                    event: RawEvent { kind: 1, code: keys[i / 2].0, value },
                }
            },
    );
    if keys.len() > 0 {
        lemma_init_has_no_custom(c, keys);
        lemma_emitting_keys_toggling(c, r, keys.drop_last(), value);
    }
    assert(emitting_keys(c, r, keys, value, true).actions =~= r.actions + list);
}

/// Whether a held modifier sends a key of its own: one of its own remap, or
/// itself where it has none.
pub open spec fn holds_down(b: BindingsView, m: Event, k: Key) -> bool {
    if b.remap.contains_key((m, Seq::empty())) {
        b.remap[(m, Seq::empty())].contains(k)
    } else {
        m == Event::Key(k)
    }
}

/// Whether an action lets go of what one of `mods` sends.
spec fn frees(b: BindingsView, mods: Seq<Event>, a: ActionView) -> bool {
    exists|m: Event, k: Key|
        mods.contains(m) && #[trigger] holds_down(b, m, k) && a == key_up(k)
}

proof fn lemma_clearing_exact(b: BindingsView, r: ReaderView, mods: Seq<Event>)
    ensures
        ({
            let after = clearing(b, r, mods);
            &&& continues(r, after)
            &&& forall|m: Event, k: Key|
                mods.contains(m) && #[trigger] holds_down(b, m, k) ==> was_let_go(r, after, k)
            &&& forall|i: int|
                r.actions.len() <= i < after.actions.len() ==> frees(
                    b,
                    mods,
                    #[trigger] after.actions[i],
                )
        }),
    decreases mods.len(),
{
    if mods.len() > 0 {
        let init = mods.drop_last();
        let last = mods.last();
        let before = clearing(b, r, init);
        let after = clearing(b, r, mods);
        let keys = modifier_outputs(b, last);
        lemma_clearing_exact(b, r, init);
        lemma_sending_all_lets_go(before, keys, 0);
        lemma_sending_all_exact(before, keys, 0);
        assert(mods[mods.len() - 1] == last);
        assert(mods.contains(last));
        assert(forall|k: Key| #[trigger] holds_down(b, last, k) ==> keys.contains(k)) by {
            assert forall|k: Key| #[trigger] holds_down(b, last, k) implies keys.contains(k) by {
                if !b.remap.contains_key((last, Seq::empty())) {
                    assert(keys[0] == k);
                }
            }
        }
        assert forall|m: Event, k: Key|
            mods.contains(m) && #[trigger] holds_down(b, m, k) implies was_let_go(r, after, k) by {
            if m == last {
                assert(keys.contains(k));
                lemma_let_go_lasts(r, before, after, after, k);
            } else {
                let j = choose|j: int| 0 <= j < mods.len() && mods[j] == m;
                assert(init[j] == m);
                assert(init.contains(m));
                lemma_let_go_lasts(r, r, before, after, k);
            }
        }
        assert forall|i: int| r.actions.len() <= i < after.actions.len() implies frees(
            b,
            mods,
            #[trigger] after.actions[i],
        ) by {
            if i < before.actions.len() {
                assert(after.actions[i] == before.actions[i]);
                let (m, k) = choose|m: Event, k: Key|
                    init.contains(m) && #[trigger] holds_down(b, m, k) && before.actions[i]
                        == key_up(k);
                let j = choose|j: int| 0 <= j < init.len() && init[j] == m;
                assert(mods[j] == m);
                assert(mods.contains(m) && holds_down(b, m, k));
            } else {
                let k = keys[i - before.actions.len()];
                assert(keys.contains(k));
                assert(holds_down(b, last, k));
            }
        }
    }
}

/// A combo sends its keys in the state of an application that sees none of its
/// modifiers: first everything that a held modifier sends is let go, the keys
/// of its own remap or itself without one, and nothing else; then the keys of
/// the combo go out, each with the value of the event, in their order, and
/// nothing after them. The state is written out before. (A key of the combo
/// that is a custom modifier goes out as a tap later, if at all.)
pub proof fn law_combo_is_not_coloured_by_its_modifiers(
    config: Config,
    settings: Settings,
    r: ReaderView,
    raw: RawEvent,
    event: Event,
    value: i32,
    now: u64,
)
    requires
        value != 0,
        r.modifiers.len() > 0,
        ({
            let b = config@.bindings;
            let combo = (event, canonical(r.modifiers));
            let alone = (event, Seq::<Event>::empty());
            &&& b.remap.contains_key(combo)
            &&& !(config@.custom_modifiers.contains(event) && b.remap.contains_key(alone))
            &&& !r.paused || b.no_pause.contains(combo) || b.no_pause.contains(alone)
            &&& !r.gaming_mode || b.while_gaming.contains(combo) || b.while_gaming.contains(alone)
        }),
    ensures
        ({
            let b = config@.bindings;
            let keys = b.remap[(event, canonical(r.modifiers))];
            let after = converted(config, settings, r, raw, event, value, false, now);
            let n = r.actions.len() as int;
            let end = after.actions.len() as int;
            &&& continues(r, after)
            &&& end > n
            &&& after.actions[n] == ActionView::Export
            // What a held modifier sends is let go before anything goes down.
            &&& forall|m: Event, k: Key|
                r.modifiers.contains(m) && b.remap.contains_key((m, Seq::<Event>::empty()))
                    && #[trigger] b.remap[(m, Seq::<Event>::empty())].contains(k) ==> exists|
                    i: int,
                |
                    n < i < end && #[trigger] after.actions[i] == (ActionView::Send {
                        sink: Sink::Keys,
                        event: RawEvent { kind: 1, code: k.0, value: 0 },
                    }) && forall|j: int|
                        n <= j < end && (#[trigger] after.actions[j] matches ActionView::Send {
                            event: e,
                            ..
                        } && e.value == value) ==> i < j
            &&& forall|k: Key|
                #[trigger] r.modifiers.contains(Event::Key(k)) && !b.remap.contains_key(
                    (Event::Key(k), Seq::<Event>::empty()),
                ) ==> exists|i: int|
                    n < i < end && #[trigger] after.actions[i] == (ActionView::Send {
                        sink: Sink::Keys,
                        event: RawEvent { kind: 1, code: k.0, value: 0 },
                    }) && forall|j: int|
                        n <= j < end && (#[trigger] after.actions[j] matches ActionView::Send {
                            event: e,
                            ..
                        } && e.value == value) ==> i < j
            // The keys of the combo come last, in their order.
            &&& (forall|k: Key| #[trigger]
                keys.contains(k) ==> !config@.custom_modifiers.contains(Event::Key(k))) ==> {
                &&& end - n > keys.len()
                &&& forall|i: int|
                    0 <= i < keys.len() ==> #[trigger] after.actions[end - keys.len() + i] == (
                    ActionView::Send {
                        sink: Sink::Keys,
                        event: RawEvent { kind: 1, code: keys[i].0, value },
                    })
                // Before them, nothing but what the modifiers send is let go.
                &&& forall|i: int|
                    n < i < end - keys.len() ==> exists|m: Event, k: Key|
                        r.modifiers.contains(m) && #[trigger] holds_down(b, m, k)
                            && #[trigger] after.actions[i] == (ActionView::Send {
                            sink: Sink::Keys,
                            event: RawEvent { kind: 1, code: k.0, value: 0 },
                        })
            }
            // The modifiers stay held.
            &&& after.modifiers == r.modifiers
        }),
{
    let c = config@;
    let b = c.bindings;
    let mods = canonical(r.modifiers);
    let combo = (event, mods);
    let keys = b.remap[combo];
    let after = converted(config, settings, r, raw, event, value, false, now);
    lemma_arrange::<Event>(r.modifiers);
    assert(r.modifiers.contains(r.modifiers[0]));
    assert(mods.contains(r.modifiers[0]));
    let res = resolution(b, event, mods, settings.chain_only);
    if let Resolution::Keys { keys: _, label, silent, is_combo, .. } = res {
        let noted = noting_keys(r, keys, value, is_combo, label, silent, now);
        let cleared = clearing(b, noted, mods);
        let sent = emitting_keys(c, cleared, keys, value, false);
        assert(after == remembering(sent, event, keys, value));
        let n = r.actions.len() as int;
        let end = after.actions.len() as int;
        lemma_clearing_exact(b, noted, mods);
        lemma_clearing_modifiers(b, noted, mods);
        lemma_emitting_keys_lets_go(c, cleared, keys, value, false);
        lemma_emitting_keys_modifiers(c, cleared, keys, value);
        assert(noted.actions.len() == n + 1);
        assert(continues(r, after));
        assert(after.actions[n] == ActionView::Export) by {
            assert(noted.actions[n] == ActionView::Export);
            assert(cleared.actions[n] == noted.actions[n]);
        }
        assert forall|j: int|
            n <= j < cleared.actions.len() implies !(#[trigger] after.actions[j] matches ActionView::Send {
            event: e,
            ..
        } && e.value == value) by {
            assert(after.actions[j] == cleared.actions[j]);
            if j == n {
                assert(cleared.actions[n] == noted.actions[n]);
            }
        }
        assert forall|m: Event, k: Key|
            r.modifiers.contains(m) && #[trigger] holds_down(b, m, k) implies exists|i: int|
            n < i < end && #[trigger] after.actions[i] == (ActionView::Send {
                sink: Sink::Keys,
                event: RawEvent { kind: 1, code: k.0, value: 0 },
            }) && forall|j: int|
                n <= j < end && (#[trigger] after.actions[j] matches ActionView::Send {
                    event: e,
                    ..
                } && e.value == value) ==> i < j by {
            assert(mods.contains(m));
            assert(was_let_go(noted, cleared, k));
            let i = choose|i: int|
                noted.actions.len() <= i < cleared.actions.len() && #[trigger] cleared.actions[i]
                    == key_up(k);
            assert(after.actions[i] == cleared.actions[i]);
        }
        assert forall|m: Event, k: Key|
            r.modifiers.contains(m) && b.remap.contains_key((m, Seq::<Event>::empty()))
                && #[trigger] b.remap[(m, Seq::<Event>::empty())].contains(k) implies holds_down(
            b,
            m,
            k,
        ) by {}
        assert forall|k: Key|
            #[trigger] r.modifiers.contains(Event::Key(k)) && !b.remap.contains_key(
                (Event::Key(k), Seq::<Event>::empty()),
            ) implies holds_down(b, Event::Key(k), k) by {}
        if forall|k: Key| #[trigger]
            keys.contains(k) ==> !c.custom_modifiers.contains(Event::Key(k)) {
            lemma_emitting_keys_exact(c, cleared, keys, value);
            let m0 = cleared.actions.len() as int;
            assert forall|i: int| 0 <= i < keys.len() implies #[trigger] after.actions[end
                - keys.len() + i] == (ActionView::Send {
                sink: Sink::Keys,
                event: RawEvent { kind: 1, code: keys[i].0, value },
            }) by {
                assert(sent.actions[m0 + i] == (ActionView::Send {
                    sink: Sink::Keys,
                    event: RawEvent { kind: 1, code: keys[i].0, value },
                }));
            }
            assert forall|i: int| n < i < end - keys.len() implies exists|m: Event, k: Key|
                r.modifiers.contains(m) && #[trigger] holds_down(b, m, k)
                    && #[trigger] after.actions[i] == (ActionView::Send {
                    sink: Sink::Keys,
                    event: RawEvent { kind: 1, code: k.0, value: 0 },
                }) by {
                assert(after.actions[i] == cleared.actions[i]);
                let (m, k) = choose|m: Event, k: Key|
                    mods.contains(m) && #[trigger] holds_down(b, m, k) && cleared.actions[i]
                        == key_up(k);
                assert(r.modifiers.contains(m) && holds_down(b, m, k));
            }
        }
    }
}

proof fn lemma_clearing_modifiers(b: BindingsView, r: ReaderView, mods: Seq<Event>)
    ensures
        clearing(b, r, mods).modifiers == r.modifiers,
        clearing(b, r, mods).modifier_was_activated == r.modifier_was_activated,
    decreases mods.len(),
{
    if mods.len() > 0 {
        lemma_clearing_modifiers(b, r, mods.drop_last());
        lemma_sending_all_exact(
            clearing(b, r, mods.drop_last()),
            modifier_outputs(b, mods.last()),
            0,
        );
    }
}

proof fn lemma_letting_go_actions(c: ConfigView, r: ReaderView, keys: Seq<Key>)
    ensures
        ({
            let after = letting_go(c, r, keys);
            let all = letting_all_go(c, r, keys);
            &&& forall|i: int|
                r.actions.len() <= i < after.actions.len() ==> (#[trigger] after.actions[i]
                    == ActionView::Export || (after.actions[i] matches ActionView::Send {
                    sink,
                    event,
                } && sink == Sink::Keys && event.kind == 1 && event.value == 0
                    && c.all_modifiers.contains(Event::Key(Key(event.code)))))
            &&& forall|i: int|
                r.actions.len() <= i < all.actions.len() ==> (#[trigger] all.actions[i]
                    == ActionView::Export || (all.actions[i] matches ActionView::Send {
                    sink,
                    event,
                } && sink == Sink::Keys && event.kind == 1 && event.value == 0))
            &&& continues(r, after)
            &&& continues(r, all)
            &&& after.modifier_was_activated == r.modifier_was_activated
            &&& all.modifier_was_activated == r.modifier_was_activated
        }),
    decreases keys.len(),
{
    if keys.len() > 0 {
        let init = keys.drop_last();
        let after = letting_go(c, r, keys);
        let all = letting_all_go(c, r, keys);
        let before = letting_go(c, r, init);
        let before_all = letting_all_go(c, r, init);
        lemma_letting_go_actions(c, r, init);
        assert(Key(keys.last().0) == keys.last());
        assert forall|i: int| r.actions.len() <= i < after.actions.len() implies (
        #[trigger] after.actions[i] == ActionView::Export || (
        after.actions[i] matches ActionView::Send { sink, event } && sink == Sink::Keys
            && event.kind == 1 && event.value == 0 && c.all_modifiers.contains(
            Event::Key(Key(event.code)),
        ))) by {
            if i < before.actions.len() {
                assert(after.actions[i] == before.actions[i]);
            }
        }
        assert forall|i: int| r.actions.len() <= i < all.actions.len() implies (
        #[trigger] all.actions[i] == ActionView::Export || (
        all.actions[i] matches ActionView::Send { sink, event } && sink == Sink::Keys && event.kind
            == 1 && event.value == 0)) by {
            if i < before_all.actions.len() {
                assert(all.actions[i] == before_all.actions[i]);
            }
        }
    }
}

proof fn lemma_no_modifiers(r: ReaderView)
    requires
        r.modifiers.len() == 0,
    ensures
        canonical(r.modifiers) == Seq::<Event>::empty(),
{
    assert(canonical(r.modifiers) =~= Seq::<Event>::empty());
}

/// With no modifier held, a button sends the keys of its own remap, each with
/// the value of the event, in their order, and nothing after them. Before them
/// the state is written out, and at most modifier keys are let go. (Keys that
/// are custom modifiers go out as taps.)
pub proof fn law_button_sends_its_keys(
    config: Config,
    settings: Settings,
    r: ReaderView,
    raw: RawEvent,
    event: Event,
    value: i32,
    now: u64,
)
    requires
        value != 0,
        r.modifiers.len() == 0,
        ({
            let b = config@.bindings;
            let alone = (event, Seq::<Event>::empty());
            &&& b.remap.contains_key(alone)
            &&& !config@.custom_modifiers.contains(event)
            &&& !r.paused || b.no_pause.contains(alone)
            &&& !r.gaming_mode || b.while_gaming.contains(alone)
            &&& forall|k: Key| #[trigger]
                b.remap[alone].contains(k) ==> !config@.custom_modifiers.contains(Event::Key(k))
        }),
    ensures
        ({
            let b = config@.bindings;
            let keys = b.remap[(event, Seq::<Event>::empty())];
            let after = converted(config, settings, r, raw, event, value, false, now);
            let n = r.actions.len() as int;
            let end = after.actions.len() as int;
            let each: int = if value == 2 {
                1
            } else {
                2
            };
            &&& continues(r, after)
            &&& after.actions[n] == ActionView::Export
            &&& end - each * keys.len() > n
            &&& value == 2 ==> forall|i: int|
                0 <= i < keys.len() ==> #[trigger] after.actions[end - keys.len() + i] == (
                ActionView::Send {
                    sink: Sink::Keys,
                    event: RawEvent { kind: 1, code: keys[i].0, value },
                })
            &&& value != 2 ==> forall|i: int|
                0 <= i < keys.len() ==> #[trigger] after.actions[end - 2 * keys.len() + 2 * i + 1]
                    == (ActionView::Send {
                    sink: Sink::Keys,
                    event: RawEvent { kind: 1, code: keys[i].0, value },
                }) && after.actions[end - 2 * keys.len() + 2 * i] == ActionView::Export
            &&& forall|i: int|
                n <= i < end - each * keys.len() ==> (#[trigger] after.actions[i]
                    == ActionView::Export || (after.actions[i] matches ActionView::Send {
                    sink,
                    event: e,
                } && sink == Sink::Keys && e.kind == 1 && e.value == 0
                    && config@.all_modifiers.contains(Event::Key(Key(e.code)))))
        }),
{
    let c = config@;
    let b = c.bindings;
    let alone = (event, Seq::<Event>::empty());
    let keys = b.remap[alone];
    let mods = canonical(r.modifiers);
    lemma_no_modifiers(r);
    let after = converted(config, settings, r, raw, event, value, false, now);
    let res = resolution(b, event, mods, settings.chain_only);
    if let Resolution::Keys { keys: _, label, silent, is_combo, .. } = res {
        let noted = noting_keys(r, keys, value, is_combo, label, silent, now);
        let freed = released_keys(config.bindings.remap.items(), mods);
        let free = letting_go(c, noted, freed);
        lemma_letting_go_actions(c, noted, freed);
        let n = r.actions.len() as int;
        let end = after.actions.len() as int;
        assert(noted.actions[n] == ActionView::Export);
        if value == 2 {
            lemma_emitting_keys_exact(c, noted, keys, value);
        } else {
            lemma_emitting_keys_toggling(c, free, keys, value);
            assert(free.actions[n] == noted.actions[n]);
            let m = free.actions.len() as int;
            assert(end == m + 2 * keys.len());
            assert forall|i: int| 0 <= i < keys.len() implies #[trigger] after.actions[end - 2
                * keys.len() + 2 * i + 1] == (ActionView::Send {
                sink: Sink::Keys,
                event: RawEvent { kind: 1, code: keys[i].0, value },
            }) && after.actions[end - 2 * keys.len() + 2 * i] == ActionView::Export by {
                assert((2 * i + 1) / 2 == i && (2 * i + 1) % 2 == 1 && (2 * i) % 2 == 0);
                assert(after.actions[m + (2 * i + 1)] == after.actions[end - 2 * keys.len() + 2 * i
                    + 1]);
            }
            assert forall|i: int| n <= i < m implies (#[trigger] after.actions[i]
                == ActionView::Export || (after.actions[i] matches ActionView::Send {
                sink,
                event: e,
            } && sink == Sink::Keys && e.kind == 1 && e.value == 0 && c.all_modifiers.contains(
                Event::Key(Key(e.code)),
            ))) by {
                assert(after.actions[i] == free.actions[i]);
            }
        }
    }
}

/// Where modifiers are held that no combo of the button speaks of, the button
/// sends the keys of its own remap, and the modifiers stay down: nothing is let
/// go, and exactly the keys go out.
pub proof fn law_fallback_keeps_the_modifiers_down(
    config: Config,
    settings: Settings,
    r: ReaderView,
    raw: RawEvent,
    event: Event,
    value: i32,
    now: u64,
)
    requires
        value != 0,
        r.modifiers.len() > 0,
        ({
            let b = config@.bindings;
            let alone = (event, Seq::<Event>::empty());
            let combo = (event, canonical(r.modifiers));
            &&& b.remap.contains_key(alone)
            &&& !b.remap.contains_key(combo)
            &&& !b.commands.contains_key(combo)
            &&& !b.movements.contains_key(combo)
            &&& !b.remap.contains_key((event, seq![Event::Hold]))
            &&& !config@.custom_modifiers.contains(event)
            &&& !r.paused || b.no_pause.contains(alone)
            &&& !r.gaming_mode || b.while_gaming.contains(alone)
            &&& forall|k: Key| #[trigger]
                b.remap[alone].contains(k) ==> !config@.custom_modifiers.contains(Event::Key(k))
        }),
    ensures
        ({
            let keys = config@.bindings.remap[(event, Seq::<Event>::empty())];
            let after = converted(config, settings, r, raw, event, value, false, now);
            &&& after.actions == r.actions.push(ActionView::Export) + Seq::new(
                keys.len(),
                |i: int|
                    ActionView::Send {
                        sink: Sink::Keys,
                        event: RawEvent { kind: 1, code: keys[i].0, value },
                    },
            )
            &&& after.modifiers == r.modifiers
            &&& after.last_action == r.last_action
        }),
{
    let c = config@;
    let b = c.bindings;
    let alone = (event, Seq::<Event>::empty());
    let keys = b.remap[alone];
    let mods = canonical(r.modifiers);
    lemma_arrange::<Event>(r.modifiers);
    assert(r.modifiers.contains(r.modifiers[0]));
    assert(mods.contains(r.modifiers[0]));
    let res = resolution(b, event, mods, settings.chain_only);
    if let Resolution::Keys { keys: _, label, silent, is_combo, .. } = res {
        let noted = noting_keys(r, keys, value, is_combo, label, silent, now);
        lemma_emitting_keys_exact(c, noted, keys, value);
        lemma_emitting_keys_modifiers(c, noted, keys, value);
        lemma_emitting_keys_last(c, noted, keys, value, false);
    }
}

proof fn lemma_emitting_keys_last(
    c: ConfigView,
    r: ReaderView,
    keys: Seq<Key>,
    value: i32,
    toggles: bool,
)
    ensures
        emitting_keys(c, r, keys, value, toggles).last_action == r.last_action,
    decreases keys.len(),
{
    if keys.len() > 0 {
        lemma_emitting_keys_last(c, r, keys.drop_last(), value, toggles);
    }
}

/// A hold binding sends exactly its keys while any modifier is held for which
/// the button has no remap, whatever else is bound to the button then.
pub proof fn law_hold_binding_sends_its_keys(
    config: Config,
    settings: Settings,
    r: ReaderView,
    raw: RawEvent,
    event: Event,
    value: i32,
    send_zero: bool,
    now: u64,
)
    requires
        value != 0,
        r.modifiers.len() > 0 || !settings.chain_only,
        !r.paused,
        !r.gaming_mode,
        ({
            let b = config@.bindings;
            let hold = (event, seq![Event::Hold]);
            &&& b.remap.contains_key(hold)
            &&& !b.remap.contains_key((event, canonical(r.modifiers)))
            &&& !config@.custom_modifiers.contains(event)
            &&& forall|k: Key| #[trigger]
                b.remap[hold].contains(k) ==> !config@.custom_modifiers.contains(Event::Key(k))
        }),
    ensures
        ({
            let keys = config@.bindings.remap[(event, seq![Event::Hold])];
            let after = converted(config, settings, r, raw, event, value, send_zero, now);
            &&& after.actions == r.actions + Seq::new(
                keys.len(),
                |i: int|
                    ActionView::Send {
                        sink: Sink::Keys,
                        event: RawEvent { kind: 1, code: keys[i].0, value },
                    },
            )
            &&& after.modifiers == r.modifiers
        }),
{
    let c = config@;
    let keys = c.bindings.remap[(event, seq![Event::Hold])];
    let mods = canonical(r.modifiers);
    lemma_arrange::<Event>(r.modifiers);
    if r.modifiers.len() > 0 {
        assert(r.modifiers.contains(r.modifiers[0]));
        assert(mods.contains(r.modifiers[0]));
    }
    lemma_emitting_keys_exact(c, r, keys, value);
    lemma_emitting_keys_modifiers(c, r, keys, value);
}

/// A command runs once for every press of its button, and for nothing else: not
/// for a repeat, not for a release, and not while paused unless it is marked.
/// The display is told what was run.
pub proof fn law_command_runs_at_the_press(
    config: Config,
    settings: Settings,
    r: ReaderView,
    raw: RawEvent,
    event: Event,
    value: i32,
    send_zero: bool,
    now: u64,
)
    requires
        !r.emitted_outputs.contains_key(event),
        ({
            let b = config@.bindings;
            let combo = (event, canonical(r.modifiers));
            let alone = (event, Seq::<Event>::empty());
            &&& b.commands.contains_key(combo)
            &&& forall|c: ComboView| #[trigger] b.remap.contains_key(c) ==> c.0 != event
            &&& !r.gaming_mode || b.while_gaming.contains(combo) || b.while_gaming.contains(alone)
        }),
    ensures
        ({
            let b = config@.bindings;
            let combo = (event, canonical(r.modifiers));
            let alone = (event, Seq::<Event>::empty());
            let commands = b.commands[combo];
            let after = converted(config, settings, r, raw, event, value, send_zero, now);
            let runs = value == 1 && (!r.paused || b.no_pause.contains(combo)
                || b.no_pause.contains(alone));
            &&& after.actions == (if runs {
                r.actions.push(ActionView::Export).push(ActionView::Spawn { commands })
            } else {
                r.actions.push(ActionView::Export)
            })
            &&& value != 1 ==> after.last_action == r.last_action
            &&& value == 1 ==> (after.last_action matches Some(last) && {
                &&& last.kind == "command"@
                &&& last.ts_micros == now
                &&& last.silent == (b.silent.contains(combo) || b.silent.contains(alone))
                &&& last.label == (if b.labels.contains_key(combo) {
                    Some(b.labels[combo])
                } else {
                    None
                })
                &&& commands.len() == 1 ==> last.value == ValueView::Text(commands[0]@)
                &&& commands.len() == 2 ==> last.value == ValueView::Text(
                    commands[0]@ + " "@ + commands[1]@,
                )
            })
            &&& after.modifiers == r.modifiers
            &&& after.cursor_movement == r.cursor_movement
            &&& after.scroll_movement == r.scroll_movement
        }),
{
    let b = config@.bindings;
    let mods = canonical(r.modifiers);
    let combo = (event, mods);
    let alone = (event, Seq::<Event>::empty());
    let hold = (event, seq![Event::Hold]);
    assert(!b.remap.contains_key(alone)) by {
        if b.remap.contains_key(alone) {
            assert(alone.0 != event);
        }
    }
    assert(!b.remap.contains_key(hold)) by {
        if b.remap.contains_key(hold) {
            assert(hold.0 != event);
        }
    }
    assert(!b.remap.contains_key(combo)) by {
        if b.remap.contains_key(combo) {
            assert(combo.0 != event);
        }
    }
    let commands = b.commands[combo];
    if commands.len() == 2 {
        assert(commands.drop_last().len() == 1);
        assert(commands.drop_last()[0] == commands[0]);
        assert(spaced(commands.drop_last()) == commands[0]@);
        assert(spaced(commands) == commands[0]@ + " "@ + commands[1]@);
    }
}

/// The display is told of every press of a combo that sends keys: the names of
/// the keys, when, and the combo's label and silence. A repeat, a release and a
/// button without held modifiers are no such action.
pub proof fn law_combo_press_is_the_last_action(
    config: Config,
    settings: Settings,
    r: ReaderView,
    raw: RawEvent,
    event: Event,
    value: i32,
    now: u64,
)
    requires
        value != 0,
        ({
            let b = config@.bindings;
            let combo = (event, canonical(r.modifiers));
            let alone = (event, Seq::<Event>::empty());
            &&& b.remap.contains_key(combo)
            &&& !config@.custom_modifiers.contains(event)
            &&& !r.gaming_mode || b.while_gaming.contains(combo) || b.while_gaming.contains(alone)
        }),
    ensures
        ({
            let b = config@.bindings;
            let combo = (event, canonical(r.modifiers));
            let alone = (event, Seq::<Event>::empty());
            let keys = b.remap[combo];
            let last = converted(
                config,
                settings,
                r,
                raw,
                event,
                value,
                false,
                now,
            ).last_action;
            &&& r.modifiers.len() == 0 || value != 1 ==> last == r.last_action
            &&& r.modifiers.len() > 0 && value == 1 ==> (last matches Some(l) && {
                &&& l.kind == "keys"@
                &&& l.ts_micros == now
                &&& l.silent == (b.silent.contains(combo) || b.silent.contains(alone))
                &&& l.label == (if b.labels.contains_key(combo) {
                    Some(b.labels[combo])
                } else {
                    None
                })
                &&& (l.value matches ValueView::Keys(names) && names.len() == keys.len() && forall|
                    i: int,
                |
                    0 <= i < keys.len() ==> #[trigger] names[i] == key_name(keys[i]))
            })
        }),
{
    let c = config@;
    let b = c.bindings;
    let mods = canonical(r.modifiers);
    let keys = b.remap[(event, mods)];
    lemma_arrange::<Event>(r.modifiers);
    if r.modifiers.len() > 0 {
        assert(r.modifiers.contains(r.modifiers[0]));
        assert(mods.contains(r.modifiers[0]));
    } else {
        lemma_no_modifiers(r);
    }
    let res = resolution(b, event, mods, settings.chain_only);
    if let Resolution::Keys { keys: _, label, no_pause, silent, is_combo, .. } = res {
        let noted = noting_keys(r, keys, value, is_combo, label, silent, now);
        let freed = released_keys(config.bindings.remap.items(), mods);
        lemma_letting_go_last(c, noted, freed);
        lemma_clearing_last(b, noted, mods);
        lemma_emitting_keys_last(c, letting_go(c, noted, freed), keys, value, true);
        lemma_emitting_keys_last(c, clearing(b, noted, mods), keys, value, false);
        lemma_emitting_keys_last(c, noted, keys, value, false);
    }
}

proof fn lemma_letting_go_last(c: ConfigView, r: ReaderView, keys: Seq<Key>)
    ensures
        letting_go(c, r, keys).last_action == r.last_action,
    decreases keys.len(),
{
    if keys.len() > 0 {
        lemma_letting_go_last(c, r, keys.drop_last());
    }
}

proof fn lemma_clearing_last(b: BindingsView, r: ReaderView, mods: Seq<Event>)
    ensures
        clearing(b, r, mods).last_action == r.last_action,
    decreases mods.len(),
{
    if mods.len() > 0 {
        lemma_clearing_last(b, r, mods.drop_last());
        lemma_sending_all_exact(
            clearing(b, r, mods.drop_last()),
            modifier_outputs(b, mods.last()),
            0,
        );
    }
}

/// An event that nothing is bound to goes out as the device reported it, on the
/// virtual device of its kind: keys on that of keys, relative axes on that of
/// axes, absolute axes and miscellaneous events on the absolute one. While
/// paused nothing goes out.
pub proof fn law_unbound_event_passes(
    config: Config,
    settings: Settings,
    r: ReaderView,
    raw: RawEvent,
    event: Event,
    value: i32,
    send_zero: bool,
    now: u64,
)
    requires
        !r.gaming_mode,
        !r.emitted_outputs.contains_key(event),
        !config@.all_modifiers.contains(event),
        !config@.custom_modifiers.contains(event),
        !(settings.layout_switcher matches Some((e, _)) && e == event),
        ({
            let b = config@.bindings;
            let mods = canonical(r.modifiers);
            &&& forall|c: ComboView| #[trigger] b.remap.contains_key(c) ==> c.0 != event
            &&& !b.commands.contains_key((event, mods))
            &&& !b.movements.contains_key((event, mods))
            &&& !b.no_pause.contains((event, r.modifiers))
            &&& !b.no_pause.contains((event, Seq::<Event>::empty()))
        }),
    ensures
        ({
            let after = converted(config, settings, r, raw, event, value, send_zero, now);
            let told = r.actions.push(ActionView::Export);
            &&& after.modifiers == r.modifiers
            &&& r.paused ==> after.actions == told
            &&& !r.paused && raw.kind == 1 ==> after.actions == told.push(
                ActionView::Send { sink: Sink::Keys, event: raw },
            )
            &&& !r.paused && raw.kind == 2 ==> after.actions == told.push(
                ActionView::Send { sink: Sink::Axis, event: raw },
            )
            &&& !r.paused && (raw.kind == 3 || raw.kind == 4) ==> after.actions == told.push(
                ActionView::Send { sink: Sink::Abs, event: raw },
            )
            &&& !r.paused && (raw.kind == 0 || raw.kind > 4) ==> after.actions == told
        }),
{
    let b = config@.bindings;
    let alone = (event, Seq::<Event>::empty());
    let hold = (event, seq![Event::Hold]);
    let combo = (event, canonical(r.modifiers));
    assert(!b.remap.contains_key(alone)) by {
        if b.remap.contains_key(alone) {
            assert(alone.0 != event);
        }
    }
    assert(!b.remap.contains_key(hold)) by {
        if b.remap.contains_key(hold) {
            assert(hold.0 != event);
        }
    }
    assert(!b.remap.contains_key(combo)) by {
        if b.remap.contains_key(combo) {
            assert(combo.0 != event);
        }
    }
}

/// A modifier that nothing is bound to is held from its press to its release. A
/// custom one is silent while it goes down; when it goes up without having
/// modified anything it goes out as a tap of itself, and not otherwise. While
/// paused it is only kept track of.
pub proof fn law_unused_modifier_is_a_tap(
    config: Config,
    settings: Settings,
    r: ReaderView,
    raw: RawEvent,
    event: Event,
    value: i32,
    send_zero: bool,
    now: u64,
)
    requires
        0 <= value <= 1,
        !r.gaming_mode,
        !r.emitted_outputs.contains_key(event),
        config@.all_modifiers.contains(event),
        config@.custom_modifiers.contains(event),
        !(settings.layout_switcher matches Some((e, _)) && e == event),
        ({
            let b = config@.bindings;
            let mods = canonical(r.modifiers);
            &&& forall|c: ComboView| #[trigger] b.remap.contains_key(c) ==> c.0 != event
            &&& !b.commands.contains_key((event, mods))
            &&& !b.movements.contains_key((event, mods))
            &&& !b.no_pause.contains((event, r.modifiers))
            &&& !b.no_pause.contains((event, Seq::<Event>::empty()))
        }),
    ensures
        ({
            let after = converted(config, settings, r, raw, event, value, send_zero, now);
            let n = r.actions.len() as int;
            let end = after.actions.len() as int;
            let tap = value == 0 && !r.modifier_was_activated && !r.paused;
            &&& continues(r, after)
            &&& after.modifiers.contains(event) <==> value == 1
            &&& value == 1 && !r.paused ==> !after.modifier_was_activated
            &&& tap ==> {
                &&& end >= n + 2
                &&& after.actions[end - 2] == (ActionView::Send {
                    sink: Sink::Keys,
                    event: RawEvent { kind: raw.kind, code: raw.code, value: 1 },
                })
                &&& after.actions[end - 1] == (ActionView::Send {
                    sink: Sink::Keys,
                    event: RawEvent { kind: raw.kind, code: raw.code, value: 0 },
                })
                &&& after.modifier_was_activated
            }
            &&& forall|i: int|
                n <= i < (if tap {
                    end - 2
                } else {
                    end
                }) ==> (#[trigger] after.actions[i] == ActionView::Export || (
                after.actions[i] matches ActionView::Send { sink, event: e } && sink == Sink::Keys
                    && e.kind == 1 && e.value == 0))
            &&& r.paused ==> end == n + 1
        }),
{
    let c = config@;
    let b = c.bindings;
    let alone = (event, Seq::<Event>::empty());
    let hold = (event, seq![Event::Hold]);
    let mods = canonical(r.modifiers);
    let combo = (event, mods);
    assert(!b.remap.contains_key(alone)) by {
        if b.remap.contains_key(alone) {
            assert(alone.0 != event);
        }
    }
    assert(!b.remap.contains_key(hold)) by {
        if b.remap.contains_key(hold) {
            assert(hold.0 != event);
        }
    }
    assert(!b.remap.contains_key(combo)) by {
        if b.remap.contains_key(combo) {
            assert(combo.0 != event);
        }
    }
    let freed = released_keys(config.bindings.remap.items(), mods);
    let free = letting_all_go(c, r, freed);
    let after = converted(config, settings, r, raw, event, value, send_zero, now);
    lemma_letting_go_actions(c, r, freed);
    lemma_held_after_members(free.modifiers, event, value);
    lemma_held_after_members(r.modifiers, event, value);
    assert(continues(r, after));
    assert forall|i: int| r.actions.len() <= i < free.actions.len() && !r.paused implies (
    #[trigger] after.actions[i] == ActionView::Export || (
    after.actions[i] matches ActionView::Send { sink, event: e } && sink == Sink::Keys && e.kind
        == 1 && e.value == 0)) by {
        assert(after.actions[i] == free.actions[i]);
    }
}

proof fn lemma_held_after_members(list: Seq<Event>, e: Event, value: i32)
    ensures
        value == 1 ==> held_after(list, e, value).contains(e),
        value == 0 ==> !held_after(list, e, value).contains(e),
        forall|x: Event|
            x != e ==> (#[trigger] held_after(list, e, value).contains(x) <==> list.contains(x)),
{
    if value == 1 {
        let more = list.push(e);
        lemma_arrange::<Event>(more);
        assert(more[list.len() as int] == e);
        assert(more.contains(e));
        assert forall|x: Event| x != e implies (#[trigger] held_after(list, e, value).contains(x)
            <==> list.contains(x)) by {
            assert(canonical(more).contains(x) <==> more.contains(x));
            if list.contains(x) {
                let i = choose|i: int| 0 <= i < list.len() && list[i] == x;
                assert(more[i] == x);
            }
            if more.contains(x) {
                let i = choose|i: int| 0 <= i < more.len() && more[i] == x;
                assert(list[i] == x);
            }
        }
        assert(canonical(more).contains(e));
    } else if value == 0 {
        lemma_filter_members(list, e);
        assert(!without(list, e).contains(e));
    }
}

/// A custom modifier with a remap of its own is two things at once: it sends
/// the keys of the remap with the value of the event, and it is held from its
/// press to its release, so that combos find it.
pub proof fn law_remapped_modifier_sends_and_is_held(
    config: Config,
    settings: Settings,
    r: ReaderView,
    raw: RawEvent,
    event: Event,
    value: i32,
    send_zero: bool,
    now: u64,
)
    requires
        value != 0 || !r.emitted_outputs.contains_key(event),
        !r.gaming_mode || value == 0,
        config@.custom_modifiers.contains(event),
        config@.all_modifiers.contains(event),
        config@.bindings.remap.contains_key((event, Seq::<Event>::empty())),
    ensures
        ({
            let b = config@.bindings;
            let alone = (event, Seq::<Event>::empty());
            let keys = b.remap[alone];
            let after = converted(config, settings, r, raw, event, value, send_zero, now);
            let sent = Seq::new(
                keys.len(),
                |i: int|
                    ActionView::Send {
                        sink: Sink::Keys,
                        event: RawEvent { kind: 1, code: keys[i].0, value },
                    },
            );
            &&& !r.paused || b.no_pause.contains(alone) ==> after.actions == (r.actions
                + sent).push(ActionView::Export).push(ActionView::Export)
            &&& r.paused && !b.no_pause.contains(alone) ==> after.actions == r.actions.push(
                ActionView::Export,
            ).push(ActionView::Export)
            &&& value == 1 ==> after.modifiers.contains(event)
            &&& value == 0 ==> !after.modifiers.contains(event)
            &&& forall|x: Event|
                x != event ==> (#[trigger] after.modifiers.contains(x) <==> r.modifiers.contains(
                    x,
                ))
            &&& after.last_action == r.last_action
        }),
{
    let keys = config@.bindings.remap[(event, Seq::<Event>::empty())];
    lemma_sending_all_exact(r, keys, value);
    lemma_held_after_members(r.modifiers, event, value);
    if value != 0 && value != 1 {
        assert(held_after(r.modifiers, event, value) == r.modifiers);
    }
}

proof fn lemma_dropping_actions(c: ConfigView, r: ReaderView, mods: Seq<Event>)
    ensures
        continues(r, dropping(c, r, mods)),
        forall|k: Key| #[trigger]
            mods.contains(Event::Key(k)) ==> was_let_go(r, dropping(c, r, mods), k),
        forall|x: Event| #[trigger]
            dropping(c, r, mods).modifiers.contains(x) <==> r.modifiers.contains(x) && !(
            mods.contains(x) && c.all_modifiers.contains(x)),
    decreases mods.len(),
{
    if mods.len() > 0 {
        let init = mods.drop_last();
        let last = mods.last();
        let before = dropping(c, r, init);
        let after = dropping(c, r, mods);
        lemma_dropping_actions(c, r, init);
        lemma_held_after_members(before.modifiers, last, 0);
        assert(mods[mods.len() - 1] == last);
        assert forall|k: Key| #[trigger] mods.contains(Event::Key(k)) implies was_let_go(
            r,
            after,
            k,
        ) by {
            if last == Event::Key(k) {
                assert(after.actions[after.actions.len() - 1] == key_up(k));
            } else {
                let j = choose|j: int| 0 <= j < mods.len() && mods[j] == Event::Key(k);
                assert(init[j] == Event::Key(k));
                assert(init.contains(Event::Key(k)));
                lemma_let_go_lasts(r, r, before, after, k);
            }
        }
        assert forall|x: Event| #[trigger]
            after.modifiers.contains(x) <==> r.modifiers.contains(x) && !(mods.contains(x)
                && c.all_modifiers.contains(x)) by {
            assert(before.modifiers.contains(x) <==> r.modifiers.contains(x) && !(init.contains(x)
                && c.all_modifiers.contains(x)));
            if mods.contains(x) && x != last {
                let j = choose|j: int| 0 <= j < mods.len() && mods[j] == x;
                assert(init[j] == x);
            }
            if init.contains(x) {
                let j = choose|j: int| 0 <= j < init.len() && init[j] == x;
                assert(mods[j] == x);
            }
            assert(mods.contains(last));
        }
    }
}

/// The layout switcher switches at its press: the held modifiers and the
/// switcher itself are let go, no mapped modifier counts as held any more, and
/// the switch comes last.
pub proof fn law_layout_switcher_lets_go_and_switches(
    config: Config,
    settings: Settings,
    r: ReaderView,
    raw: RawEvent,
    event: Event,
    send_zero: bool,
    now: u64,
)
    requires
        !r.gaming_mode,
        settings.layout_switcher matches Some((e, held)) && e == event && held@ == canonical(
            r.modifiers,
        ),
        ({
            let b = config@.bindings;
            let mods = canonical(r.modifiers);
            &&& forall|c: ComboView| #[trigger] b.remap.contains_key(c) ==> c.0 != event
            &&& !b.commands.contains_key((event, mods))
            &&& !b.movements.contains_key((event, mods))
        }),
    ensures
        ({
            let after = converted(config, settings, r, raw, event, 1, send_zero, now);
            &&& continues(r, after)
            &&& after.actions.len() > r.actions.len()
            &&& after.actions.last() == ActionView::ChangeLayout
            &&& forall|k: Key| #[trigger]
                r.modifiers.contains(Event::Key(k)) ==> was_let_go(r, after, k)
            &&& event matches Event::Key(k) ==> was_let_go(r, after, k)
            &&& forall|x: Event| #[trigger]
                after.modifiers.contains(x) <==> r.modifiers.contains(x)
                    && !config@.all_modifiers.contains(x)
        }),
{
    let c = config@;
    let b = c.bindings;
    let alone = (event, Seq::<Event>::empty());
    let hold = (event, seq![Event::Hold]);
    let mods = canonical(r.modifiers);
    let combo = (event, mods);
    assert(!b.remap.contains_key(alone)) by {
        if b.remap.contains_key(alone) {
            assert(alone.0 != event);
        }
    }
    assert(!b.remap.contains_key(hold)) by {
        if b.remap.contains_key(hold) {
            assert(hold.0 != event);
        }
    }
    assert(!b.remap.contains_key(combo)) by {
        if b.remap.contains_key(combo) {
            assert(combo.0 != event);
        }
    }
    lemma_arrange::<Event>(r.modifiers);
    lemma_dropping_actions(c, r, mods);
    let dropped = dropping(c, r, mods);
    let after = converted(config, settings, r, raw, event, 1, send_zero, now);
    assert(continues(dropped, after));
    assert forall|k: Key| #[trigger] r.modifiers.contains(Event::Key(k)) implies was_let_go(
        r,
        after,
        k,
    ) by {
        assert(mods.contains(Event::Key(k)));
        lemma_let_go_lasts(r, r, dropped, after, k);
    }
    if let Event::Key(k) = event {
        assert(after.actions[dropped.actions.len() as int] == key_up(k));
    }
}

/// A notch of a wheel is a press with its release: the keys of a plain remap go
/// down and up again, so that none of them stays down.
pub proof fn law_notch_is_pressed_and_released(
    config: Config,
    settings: Settings,
    r: ReaderView,
    raw: RawEvent,
    event: Event,
    now: u64,
    k: Key,
)
    requires
        !r.paused,
        !r.gaming_mode,
        r.modifiers.len() == 0,
        ({
            let b = config@.bindings;
            let alone = (event, Seq::<Event>::empty());
            &&& b.remap.contains_key(alone)
            &&& !config@.custom_modifiers.contains(event)
            &&& b.remap[alone].contains(k)
            &&& forall|k: Key| #[trigger]
                b.remap[alone].contains(k) ==> !config@.custom_modifiers.contains(Event::Key(k))
        }),
    ensures
        ({
            let after = converted(config, settings, r, raw, event, 1, true, now);
            &&& continues(r, after)
            &&& exists|i: int, j: int|
                r.actions.len() <= i < j < after.actions.len() && #[trigger] after.actions[i] == (
                ActionView::Send {
                    sink: Sink::Keys,
                    event: RawEvent { kind: 1, code: k.0, value: 1 },
                }) && #[trigger] after.actions[j] == (ActionView::Send {
                    sink: Sink::Keys,
                    event: RawEvent { kind: 1, code: k.0, value: 0 },
                })
        }),
{
    let c = config@;
    let b = c.bindings;
    let alone = (event, Seq::<Event>::empty());
    let keys = b.remap[alone];
    let mods = canonical(r.modifiers);
    lemma_no_modifiers(r);
    let res = resolution(b, event, mods, settings.chain_only);
    if let Resolution::Keys { keys: _, label, silent, is_combo, no_pause, .. } = res {
        let noted = noting_keys(r, keys, 1, is_combo, label, silent, now);
        let first = emitting(config, noted, keys, 1, mods, true, false, no_pause);
        let freed = released_keys(config.bindings.remap.items(), mods);
        let free = letting_go(c, noted, freed);
        lemma_letting_go_actions(c, noted, freed);
        lemma_emitting_keys_toggling(c, free, keys, 1);
        let then = canonical(first.modifiers);
        let empty = then.len() == 0;
        lemma_emitting_lets_go(config, first, keys, 0, then, empty, !empty);
        lemma_emitting_unpaused(config, noted, keys, 1, mods, true, false, no_pause);
        let after = converted(config, settings, r, raw, event, 1, true, now);
        assert(after == emitting(config, first, keys, 0, then, empty, !empty, no_pause));
        assert(after == emitting(config, first, keys, 0, then, empty, !empty, true));
        assert(was_let_go(first, after, k));
        let j = choose|j: int|
            first.actions.len() <= j < after.actions.len() && #[trigger] after.actions[j]
                == key_up(k);
        let x = choose|x: int| 0 <= x < keys.len() && keys[x] == k;
        let i = free.actions.len() + 2 * x + 1;
        assert((2 * x + 1) / 2 == x && (2 * x + 1) % 2 == 1);
        assert(first.actions[i] == (ActionView::Send {
            sink: Sink::Keys,
            event: RawEvent { kind: 1, code: k.0, value: 1 },
        }));
        assert(after.actions[i] == first.actions[i]);
    }
}

proof fn lemma_emitting_unpaused(
    config: Config,
    r: ReaderView,
    keys: Seq<Key>,
    value: i32,
    mods: Seq<Event>,
    release: bool,
    ignore: bool,
    no_pause: bool,
)
    ensures
        emitting(config, r, keys, value, mods, release, ignore, no_pause).paused == r.paused,
{
    let c = config@;
    let freed = released_keys(config.bindings.remap.items(), mods);
    lemma_letting_go_paused(c, r, freed);
    lemma_clearing_paused(c.bindings, r, mods);
    lemma_emitting_keys_paused(c, letting_go(c, r, freed), keys, value, true);
    lemma_emitting_keys_paused(c, clearing(c.bindings, r, mods), keys, value, false);
    lemma_emitting_keys_paused(c, r, keys, value, false);
}

proof fn lemma_letting_go_paused(c: ConfigView, r: ReaderView, keys: Seq<Key>)
    ensures
        letting_go(c, r, keys).paused == r.paused,
    decreases keys.len(),
{
    if keys.len() > 0 {
        lemma_letting_go_paused(c, r, keys.drop_last());
    }
}

proof fn lemma_clearing_paused(b: BindingsView, r: ReaderView, mods: Seq<Event>)
    ensures
        clearing(b, r, mods).paused == r.paused,
    decreases mods.len(),
{
    if mods.len() > 0 {
        lemma_clearing_paused(b, r, mods.drop_last());
        lemma_sending_all_exact(
            clearing(b, r, mods.drop_last()),
            modifier_outputs(b, mods.last()),
            0,
        );
    }
}

proof fn lemma_emitting_keys_paused(
    c: ConfigView,
    r: ReaderView,
    keys: Seq<Key>,
    value: i32,
    toggles: bool,
)
    ensures
        emitting_keys(c, r, keys, value, toggles).paused == r.paused,
    decreases keys.len(),
{
    if keys.len() > 0 {
        lemma_emitting_keys_paused(c, r, keys.drop_last(), value, toggles);
    }
}

/// What a device's event asks for is done: a press, repeat or release is handled
/// as one, the reports of a pen go out in their order on the absolute device,
/// paused or not, and what is to be handed on goes out as it is on the virtual
/// device of its kind, unless paused.
pub proof fn law_device_events_are_obeyed(
    config: Config,
    settings: Settings,
    r: ReaderView,
    raw: RawEvent,
    events: Seq<RawEvent>,
    now: u64,
)
    ensures
        obeying(config, settings, r, raw, StepView::Nothing, now) == r,
        obeying(config, settings, r, raw, StepView::Pen { events }, now) == (ReaderView {
            actions: r.actions + Seq::new(
                events.len(),
                |i: int| ActionView::Send { sink: Sink::Abs, event: events[i] },
            ),
            ..r
        }),
        r.paused ==> obeying(config, settings, r, raw, StepView::Default, now) == r,
        !r.paused ==> obeying(config, settings, r, raw, StepView::Default, now) == (ReaderView {
            actions: if raw.kind == 1 {
                r.actions.push(ActionView::Send { sink: Sink::Keys, event: raw })
            } else if raw.kind == 2 {
                r.actions.push(ActionView::Send { sink: Sink::Axis, event: raw })
            } else if raw.kind == 3 || raw.kind == 4 {
                r.actions.push(ActionView::Send { sink: Sink::Abs, event: raw })
            } else {
                r.actions
            },
            ..r
        }),
    decreases events.len(),
{
    let list = Seq::new(
        events.len(),
        |i: int| ActionView::Send { sink: Sink::Abs, event: events[i] },
    );
    if events.len() > 0 {
        law_device_events_are_obeyed(config, settings, r, raw, events.drop_last(), now);
    }
    assert(sending_pen(r, events).actions =~= r.actions + list);
}

// ── What a press brings with it ──────────────────────────────────────────────

/// What a command binding runs is told as one text, with a blank between the
/// parts.
pub proof fn law_commands_are_told_with_blanks(texts: Seq<String>, next: String)
    ensures
        spaced(Seq::empty()) == Seq::<char>::empty(),
        spaced(seq![next]) == next@,
        texts.len() > 0 ==> spaced(texts.push(next)) == spaced(texts) + seq![' '] + next@,
{
    reveal_strlit(" ");
    assert(" "@ =~= seq![' ']);
    assert(texts.push(next).drop_last() =~= texts);
    assert(texts.push(next).last() == next);
}

proof fn lemma_released_keys(items: Seq<(ComboView, Seq<Key>)>, mods: Seq<Event>, j: int, k: Key)
    requires
        0 <= j < items.len(),
        items[j].0.1 == mods,
        items[j].1.contains(k),
    ensures
        released_keys(items, mods).contains(k),
    decreases items.len(),
{
    let init = items.drop_last();
    let rest = released_keys(init, mods);
    let all = released_keys(items, mods);
    if j < init.len() {
        assert(init[j] == items[j]);
        lemma_released_keys(init, mods, j, k);
        let i = choose|i: int| 0 <= i < rest.len() && rest[i] == k;
        assert(all[i] == k);
    } else {
        let last = items.last().1;
        let i = choose|i: int| 0 <= i < last.len() && last[i] == k;
        assert(all[rest.len() + i] == k);
    }
}

proof fn lemma_letting_go_frees(c: ConfigView, r: ReaderView, keys: Seq<Key>, k: Key)
    requires
        keys.contains(k),
        c.all_modifiers.contains(Event::Key(k)),
    ensures
        was_let_go(r, letting_go(c, r, keys), k),
    decreases keys.len(),
{
    let init = keys.drop_last();
    let before = letting_go(c, r, init);
    let after = letting_go(c, r, keys);
    lemma_letting_go_continues(c, r, init);
    if keys.last() == k {
        assert(after.actions[after.actions.len() - 1] == key_up(k));
    } else {
        let i = choose|i: int| 0 <= i < keys.len() && keys[i] == k;
        assert(init[i] == k);
        lemma_letting_go_frees(c, r, init, k);
        assert(continues(before, after));
        lemma_let_go_lasts(r, r, before, after, k);
    }
}

/// With no modifier held, the press of a button first lets go of every
/// modifier key that some button sends by itself, so that none of them colours
/// what the button sends.
pub proof fn law_plain_button_lets_go_of_modifier_keys(
    config: Config,
    settings: Settings,
    r: ReaderView,
    raw: RawEvent,
    event: Event,
    value: i32,
    now: u64,
    other: Event,
    k: Key,
)
    requires
        value == 1,
        r.modifiers.len() == 0,
        crate::keyed::distinct_keys(config.bindings.remap.items()),
        ({
            let b = config@.bindings;
            let alone = (event, Seq::<Event>::empty());
            &&& b.remap.contains_key(alone)
            &&& !config@.custom_modifiers.contains(event)
            &&& !r.paused || b.no_pause.contains(alone)
            &&& !r.gaming_mode || b.while_gaming.contains(alone)
            &&& forall|x: Key| #[trigger]
                b.remap[alone].contains(x) ==> !config@.custom_modifiers.contains(Event::Key(x))
            &&& b.remap.contains_key((other, Seq::<Event>::empty()))
            &&& b.remap[(other, Seq::<Event>::empty())].contains(k)
            &&& config@.all_modifiers.contains(Event::Key(k))
        }),
    ensures
        ({
            let keys = config@.bindings.remap[(event, Seq::<Event>::empty())];
            let after = converted(config, settings, r, raw, event, value, false, now);
            exists|i: int|
                r.actions.len() <= i < after.actions.len() - 2 * keys.len()
                    && #[trigger] after.actions[i] == (ActionView::Send {
                    sink: Sink::Keys,
                    event: RawEvent { kind: 1, code: k.0, value: 0 },
                })
        }),
{
    let c = config@;
    let b = c.bindings;
    let keys = b.remap[(event, Seq::<Event>::empty())];
    let mods = canonical(r.modifiers);
    lemma_no_modifiers(r);
    let after = converted(config, settings, r, raw, event, value, false, now);
    let items = config.bindings.remap.items();
    config.bindings.remap.lemma_items();
    assert(config.bindings.remap@.contains_key((other, Seq::<Event>::empty())));
    let j = choose|j: int|
        0 <= j < items.len() && (#[trigger] items[j]).0 == (other, Seq::<Event>::empty());
    assert(items[j].1 == b.remap[items[j].0]);
    let freed = released_keys(items, mods);
    lemma_released_keys(items, mods, j, k);
    let res = resolution(b, event, mods, settings.chain_only);
    if let Resolution::Keys { keys: _, label, silent, is_combo, .. } = res {
        let noted = noting_keys(r, keys, value, is_combo, label, silent, now);
        let free = letting_go(c, noted, freed);
        lemma_letting_go_frees(c, noted, freed, k);
        lemma_emitting_keys_toggling(c, free, keys, value);
        let i = choose|i: int|
            noted.actions.len() <= i < free.actions.len() && #[trigger] free.actions[i] == key_up(
                k,
            );
        assert(after.actions[i] == free.actions[i]);
        assert(after.actions.len() == free.actions.len() + 2 * keys.len());
    }
}

proof fn lemma_letting_go_of_none(c: ConfigView, r: ReaderView, keys: Seq<Key>)
    requires
        r.modifiers.len() == 0,
    ensures
        letting_go(c, r, keys).modifiers.len() == 0,
    decreases keys.len(),
{
    if keys.len() > 0 {
        lemma_letting_go_of_none(c, r, keys.drop_last());
        let before = letting_go(c, r, keys.drop_last()).modifiers;
        let e = Event::Key(keys.last());
        lemma_held_after_members(before, e, 0);
        let now = held_after(before, e, 0);
        if now.len() > 0 {
            assert(now.contains(now[0]));
            assert(before.contains(now[0]));
        }
    }
}

proof fn lemma_emitting_keys_holds(c: ConfigView, r: ReaderView, keys: Seq<Key>, e: Event)
    ensures
        emitting_keys(c, r, keys, 1, true).modifiers.contains(e) <==> r.modifiers.contains(e) || (
        e is Key && keys.contains(e->Key_0) && c.all_modifiers.contains(e)),
    decreases keys.len(),
{
    if keys.len() > 0 {
        let init = keys.drop_last();
        let k = keys.last();
        lemma_emitting_keys_holds(c, r, init, e);
        let before = emitting_keys(c, r, init, 1, true);
        lemma_held_after_members(before.modifiers, Event::Key(k), 1);
        assert(keys[keys.len() - 1] == k);
        if e is Key {
            let x = e->Key_0;
            if init.contains(x) {
                let i = choose|i: int| 0 <= i < init.len() && init[i] == x;
                assert(keys[i] == x);
            }
            if keys.contains(x) && x != k {
                let i = choose|i: int| 0 <= i < keys.len() && keys[i] == x;
                assert(init[i] == x);
            }
        }
    }
}

/// A modifier key that a button sends by itself counts as held from the press
/// on, so that combos find it; no other key does. The press counts as a use of
/// the modifiers.
pub proof fn law_sent_modifier_keys_are_held(
    config: Config,
    settings: Settings,
    r: ReaderView,
    raw: RawEvent,
    event: Event,
    now: u64,
    e: Event,
)
    requires
        r.modifiers.len() == 0,
        ({
            let b = config@.bindings;
            let alone = (event, Seq::<Event>::empty());
            &&& b.remap.contains_key(alone)
            &&& b.remap[alone].len() > 0
            &&& !config@.custom_modifiers.contains(event)
            &&& !r.paused || b.no_pause.contains(alone)
            &&& !r.gaming_mode || b.while_gaming.contains(alone)
            &&& forall|x: Key| #[trigger]
                b.remap[alone].contains(x) ==> !config@.custom_modifiers.contains(Event::Key(x))
        }),
    ensures
        ({
            let keys = config@.bindings.remap[(event, Seq::<Event>::empty())];
            let after = converted(config, settings, r, raw, event, 1, false, now);
            &&& after.modifiers.contains(e) <==> e is Key && keys.contains(e->Key_0)
                && config@.all_modifiers.contains(e)
            &&& after.modifier_was_activated
        }),
{
    let c = config@;
    let b = c.bindings;
    let keys = b.remap[(event, Seq::<Event>::empty())];
    let mods = canonical(r.modifiers);
    lemma_no_modifiers(r);
    let res = resolution(b, event, mods, settings.chain_only);
    if let Resolution::Keys { keys: _, label, silent, is_combo, .. } = res {
        let noted = noting_keys(r, keys, 1, is_combo, label, silent, now);
        let freed = released_keys(config.bindings.remap.items(), mods);
        let free = letting_go(c, noted, freed);
        lemma_letting_go_of_none(c, noted, freed);
        lemma_emitting_keys_toggling(c, free, keys, 1);
        lemma_emitting_keys_holds(c, free, keys, e);
        assert(!free.modifiers.contains(e));
    }
}

/// A combo that sends anything, and a command that runs, count as a use of the
/// modifiers that are held: none of those goes out as a tap of its own.
pub proof fn law_combos_use_their_modifiers(
    config: Config,
    settings: Settings,
    r: ReaderView,
    raw: RawEvent,
    event: Event,
    now: u64,
)
    requires
        r.modifiers.len() > 0,
        ({
            let b = config@.bindings;
            let combo = (event, canonical(r.modifiers));
            let alone = (event, Seq::<Event>::empty());
            &&& !(config@.custom_modifiers.contains(event) && b.remap.contains_key(alone))
            &&& !r.paused || b.no_pause.contains(combo) || b.no_pause.contains(alone)
            &&& !r.gaming_mode || b.while_gaming.contains(combo) || b.while_gaming.contains(alone)
            &&& (b.remap.contains_key(combo) && b.remap[combo].len() > 0 && forall|x: Key|
                #[trigger]
                b.remap[combo].contains(x) ==> !config@.custom_modifiers.contains(Event::Key(x)))
                || (b.commands.contains_key(combo) && forall|x: ComboView| #[trigger]
                b.remap.contains_key(x) ==> x.0 != event)
        }),
    ensures
        converted(config, settings, r, raw, event, 1, false, now).modifier_was_activated,
{
    let c = config@;
    let b = c.bindings;
    let mods = canonical(r.modifiers);
    let combo = (event, mods);
    let res = resolution(b, event, mods, settings.chain_only);
    lemma_some_modifiers(r);
    if b.remap.contains_key(combo) {
        let keys = b.remap[combo];
        if let Resolution::Keys { keys: _, label, silent, is_combo, .. } = res {
            let noted = noting_keys(r, keys, 1, is_combo, label, silent, now);
            lemma_emitting_keys_exact(c, clearing(b, noted, mods), keys, 1);
            lemma_emitting_keys_exact(c, noted, keys, 1);
        }
    } else {
        assert(!b.remap.contains_key((event, seq![Event::Hold]))) by {
            if b.remap.contains_key((event, seq![Event::Hold])) {
                assert((event, seq![Event::Hold]).0 != event);
            }
        }
    }
}

proof fn lemma_some_modifiers(r: ReaderView)
    requires
        r.modifiers.len() > 0,
    ensures
        canonical(r.modifiers).len() > 0,
{
    crate::order::lemma_arrange::<Event>(r.modifiers);
    assert(r.modifiers.contains(r.modifiers[0]));
    assert(canonical(r.modifiers).contains(r.modifiers[0]));
}

/// In gaming mode a binding acts where it is marked so: keys and a command by
/// the mark of their combo, a hold binding by its own. A movement, and a button
/// that nothing is bound to, never do.
pub proof fn law_marked_bindings_act_while_gaming(b: BindingsView, event: Event, res: Resolution)
    ensures
        res matches Resolution::Keys { while_gaming, .. } ==> acts_while_gaming(b, event, res)
            == while_gaming,
        res matches Resolution::Command { while_gaming, .. } ==> acts_while_gaming(b, event, res)
            == while_gaming,
        res is Hold ==> acts_while_gaming(b, event, res) == b.while_gaming.contains(
            (event, seq![Event::Hold]),
        ),
        res is Movement || res is Unbound ==> !acts_while_gaming(b, event, res),
{
}

/// A hold binding heeds its own marks: while paused it sends its keys where it
/// is marked to act then and nothing otherwise, and in gaming mode likewise by
/// the other mark.
pub proof fn law_hold_binding_heeds_its_marks(
    config: Config,
    settings: Settings,
    r: ReaderView,
    raw: RawEvent,
    event: Event,
    value: i32,
    send_zero: bool,
    now: u64,
)
    requires
        value != 0,
        r.modifiers.len() > 0 || !settings.chain_only,
        ({
            let b = config@.bindings;
            let hold = (event, seq![Event::Hold]);
            &&& b.remap.contains_key(hold)
            &&& !b.remap.contains_key((event, canonical(r.modifiers)))
            &&& !config@.custom_modifiers.contains(event)
            &&& forall|k: Key| #[trigger]
                b.remap[hold].contains(k) ==> !config@.custom_modifiers.contains(Event::Key(k))
        }),
    ensures
        ({
            let b = config@.bindings;
            let hold = (event, seq![Event::Hold]);
            let keys = b.remap[hold];
            let after = converted(config, settings, r, raw, event, value, send_zero, now);
            let sent = Seq::new(
                keys.len(),
                |i: int|
                    ActionView::Send {
                        sink: Sink::Keys,
                        event: RawEvent { kind: 1, code: keys[i].0, value },
                    },
            );
            let swallowed = r.gaming_mode && !b.while_gaming.contains(hold);
            &&& swallowed ==> after.actions == r.actions.push(ActionView::Export)
            &&& !swallowed && r.paused && !b.no_pause.contains(hold) ==> after.actions == r.actions
            &&& !swallowed && (!r.paused || b.no_pause.contains(hold)) ==> after.actions
                == r.actions + sent
        }),
{
    let c = config@;
    let b = c.bindings;
    let keys = b.remap[(event, seq![Event::Hold])];
    lemma_emitting_keys_exact(c, r, keys, value);
    let mods = canonical(r.modifiers);
    if r.modifiers.len() > 0 {
        lemma_some_modifiers(r);
    }
    assert(resolution(b, event, mods, settings.chain_only) == (Resolution::Hold { keys }));
}

} // verus!
