//! The state snapshot: everything a display needs to show what the buttons do
//! right now. Pure; writing it out is somebody else's business.

use crate::config::{
    Bindings, BindingsView, ComboTable, ComboView, Config, ConfigView, GamingModeConfig, Hint,
    TextTable,
};
use crate::event::{
    canonical, canonical_list, combo_name, combo_text, event_name, event_to_str, has_event,
    key_name, relative_name, Combo, Event, Key, Relative,
};
use crate::keyed::{distinct_keys, lemma_map_of, map_of, KeyedList, Label, Replicate};
use crate::order::{
    arrange, ascending, lemma_arrange, put_in_place, views, Ordered,
};
use crate::resolver::{flagged, is_flagged, label_of, resolution, resolve_binding, Resolution,
    ResolvedBinding};
use crate::text::{copy_text, copy_texts, same_text, text_before, text_in};
use vstd::prelude::*;

verus! {

// ── The snapshot ─────────────────────────────────────────────────────────────

/// What the last action produced.
#[derive(Debug, Clone, PartialEq, Eq)]
pub enum ActionValue {
    Keys(Vec<String>),
    Text(String),
}

/// The last discrete action of the user. A display shows it and lets it fade.
#[derive(Debug, Clone, PartialEq, Eq)]
pub struct LastAction {
    /// `keys`, `command` or `exec`.
    pub kind: String,
    pub value: ActionValue,
    /// When it happened, in microseconds since the epoch.
    pub ts_micros: u64,
    pub label: Option<String>,
    /// Whether the display keeps quiet about it.
    pub silent: bool,
}

/// What the last action produced, without its representation.
pub enum ValueView {
    Keys(Seq<Seq<char>>),
    Text(Seq<char>),
}

/// The last action, without its representation.
pub struct LastView {
    pub kind: Seq<char>,
    pub value: ValueView,
    pub ts_micros: u64,
    pub label: Option<Seq<char>>,
    pub silent: bool,
}

/// The view of a last action.
pub open spec fn last_view(a: Option<LastAction>) -> Option<LastView> {
    match a {
        None => None,
        Some(l) => Some(
            LastView {
                kind: l.kind@,
                value: match l.value {
                    ActionValue::Keys(keys) => ValueView::Keys(views(keys@)),
                    ActionValue::Text(text) => ValueView::Text(text@),
                },
                ts_micros: l.ts_micros,
                label: text_in(l.label),
                silent: l.silent,
            },
        ),
    }
}

/// What kind of action an entry of the snapshot stands for.
#[derive(Debug, Clone, Copy, PartialEq, Eq, Structural)]
pub enum BindingKind {
    Remap,
    Command,
    Movement,
    Hint,
}

/// One entry of the snapshot.
#[derive(Debug, Clone, PartialEq, Eq)]
pub struct BindingEntry {
    /// What is sent or run, written out.
    pub action: Vec<String>,
    /// The configuration that the entry comes from.
    pub origin: String,
    pub label: Option<String>,
    pub kind: BindingKind,
    /// Told of remaps.
    pub silent: Option<bool>,
    /// Told of commands.
    pub no_pause: Option<bool>,
}

/// One entry of the snapshot, without its representation.
#[verifier::ext_equal]
pub struct EntryView {
    pub action: Seq<Seq<char>>,
    pub origin: Seq<char>,
    pub label: Option<Seq<char>>,
    pub kind: BindingKind,
    pub silent: Option<bool>,
    pub no_pause: Option<bool>,
}

impl View for BindingEntry {
    type V = EntryView;

    open spec fn view(&self) -> EntryView {
        EntryView {
            action: views(self.action@),
            origin: self.origin@,
            label: text_in(self.label),
            kind: self.kind,
            silent: self.silent,
            no_pause: self.no_pause,
        }
    }
}

impl Replicate for BindingEntry {
    fn replicate(&self) -> (r: Self) {
        BindingEntry {
            action: copy_texts(&self.action),
            origin: self.origin.clone(),
            label: copy_text(&self.label),
            kind: self.kind,
            silent: self.silent,
            no_pause: self.no_pause,
        }
    }
}

impl Replicate for bool {
    fn replicate(&self) -> (r: Self) {
        *self
    }
}

/// A key that is being sent.
#[derive(Debug, Clone, PartialEq, Eq)]
pub struct ActiveOutput {
    pub key: String,
    pub silent: bool,
}

/// A modifier button that would unlock a combo if it were pressed next.
#[derive(Debug, Clone, PartialEq, Eq)]
pub struct AvailableModifier {
    pub name: String,
    /// Whether one of the combos is the application's own.
    pub has_app_combos: bool,
}

/// The button that switches gaming mode.
#[derive(Debug, Clone, PartialEq, Eq)]
pub struct TriggerInfo {
    pub key: String,
    pub label: String,
}

/// The situation that a snapshot was taken in.
#[derive(Debug, Clone, PartialEq, Eq)]
pub struct Context {
    pub active_app: String,
    pub config_stack: Vec<String>,
    pub layout: u16,
    pub paused: bool,
    pub gaming_mode: bool,
    /// The modifiers that are held.
    pub held_modifiers: Vec<String>,
    /// All buttons that are held.
    pub active_buttons: Vec<String>,
    pub active_outputs: Vec<ActiveOutput>,
    pub available_modifiers: Vec<AvailableModifier>,
}

/// A snapshot.
#[derive(Debug, PartialEq, Eq)]
pub struct State {
    pub context: Context,
    pub last_action: Option<LastAction>,
    /// Every binding, by its combo written out.
    pub bindings: KeyedList<String, BindingEntry>,
    /// What the combos of the held modifiers do, by trigger.
    pub modifier_active: KeyedList<String, BindingEntry>,
    pub gaming_mode_trigger: Option<TriggerInfo>,
}

/// Whether a configuration is the active one.
#[derive(Debug, Clone, PartialEq, Eq)]
pub struct ConfigInfo {
    pub name: String,
    pub active: bool,
}

/// All loaded configurations, each with whether it is the active one.
pub fn build_configs_json(all_configs: &Vec<Config>, active_name: &str) -> (r: Vec<ConfigInfo>)
    ensures
        r@.len() == all_configs@.len(),
        forall|i: int|
            0 <= i < r@.len() ==> (#[trigger] r@[i]).name == all_configs@[i].name && r@[i].active
                == (all_configs@[i].name@ == active_name@),
{
    let mut r: Vec<ConfigInfo> = Vec::new();
    let mut i: usize = 0;
    while i < all_configs.len()
        invariant
            i <= all_configs@.len(),
            r@.len() == i,
            forall|j: int|
                0 <= j < i ==> (#[trigger] r@[j]).name == all_configs@[j].name && r@[j].active == (
                all_configs@[j].name@ == active_name@),
        decreases all_configs@.len() - i,
    {
        r.push(
            ConfigInfo {
                name: all_configs[i].name.clone(),
                active: same_text(all_configs[i].name.as_str(), active_name),
            },
        );
        i = i + 1;
    }
    r
}

// ── Names ────────────────────────────────────────────────────────────────────

/// A list of keys, written out.
pub open spec fn key_names(keys: Seq<Key>) -> Seq<Seq<char>> {
    Seq::new(keys.len(), |i: int| key_name(keys[i]))
}

/// A list of events, written out.
pub open spec fn event_names(events: Seq<Event>) -> Seq<Seq<char>> {
    Seq::new(events.len(), |i: int| event_name(events[i]))
}

fn key_texts(keys: &Vec<Key>) -> (r: Vec<String>)
    ensures
        views(r@) == key_names(keys@),
{
    let mut r: Vec<String> = Vec::new();
    let mut i: usize = 0;
    while i < keys.len()
        invariant
            i <= keys@.len(),
            r@.len() == i,
            forall|j: int| 0 <= j < i ==> (#[trigger] r@[j])@ == key_name(keys@[j]),
        decreases keys@.len() - i,
    {
        r.push(keys[i].name());
        i = i + 1;
    }
    assert(views(r@) =~= key_names(keys@));
    r
}

fn event_texts(events: &Vec<Event>) -> (r: Vec<String>)
    ensures
        views(r@) == event_names(events@),
{
    let mut r: Vec<String> = Vec::new();
    let mut i: usize = 0;
    while i < events.len()
        invariant
            i <= events@.len(),
            r@.len() == i,
            forall|j: int| 0 <= j < i ==> (#[trigger] r@[j])@ == event_name(events@[j]),
        decreases events@.len() - i,
    {
        r.push(event_to_str(&events[i]));
        i = i + 1;
    }
    assert(views(r@) =~= event_names(events@));
    r
}

// ── Origins ──────────────────────────────────────────────────────────────────

/// The name of the configuration at the bottom of the stack.
pub open spec fn base_name(config: ConfigView, stack: Seq<String>) -> Seq<char> {
    if stack.len() > 0 {
        stack[0]@
    } else {
        config.name
    }
}

/// Where something comes from: the configuration itself, unless it is merged
/// and did not bring it along.
pub open spec fn origin(config: ConfigView, base: Seq<char>, own: bool) -> Seq<char> {
    if config.override_bindings is None || own {
        config.name
    } else {
        base
    }
}

fn origin_text(config: &Config, base: &String, own: bool) -> (r: String)
    ensures
        r@ == origin(config@, base@, own),
{
    if config.override_bindings.is_none() || own {
        config.name.clone()
    } else {
        base.clone()
    }
}

/// Whether a merged configuration brought a remap of `c` along.
pub open spec fn own_remap(config: ConfigView, c: ComboView) -> bool {
    config.override_bindings matches Some(o) && o.remap.contains_key(c)
}

/// Whether a merged configuration brought a command of `c` along.
pub open spec fn own_command(config: ConfigView, c: ComboView) -> bool {
    config.override_bindings matches Some(o) && o.commands.contains_key(c)
}

/// Whether a merged configuration brought a movement of `c` along.
pub open spec fn own_movement(config: ConfigView, c: ComboView) -> bool {
    config.override_bindings matches Some(o) && o.movements.contains_key(c)
}

fn has_own_remap(config: &Config, c: &Combo) -> (r: bool)
    ensures
        r == own_remap(config@, c@),
{
    match &config.override_bindings {
        Some(o) => o.remap.contains_key(c),
        None => false,
    }
}

fn has_own_command(config: &Config, c: &Combo) -> (r: bool)
    ensures
        r == own_command(config@, c@),
{
    match &config.override_bindings {
        Some(o) => o.commands.contains_key(c),
        None => false,
    }
}

fn has_own_movement(config: &Config, c: &Combo) -> (r: bool)
    ensures
        r == own_movement(config@, c@),
{
    match &config.override_bindings {
        Some(o) => o.movements.contains_key(c),
        None => false,
    }
}

fn label_copy(b: &Bindings, c: &Combo) -> (r: Option<String>)
    ensures
        text_in(r) == label_of(b@, c@),
{
    match b.labels.get(c) {
        Some(l) => Some(l.clone()),
        None => None,
    }
}

// ── All bindings ─────────────────────────────────────────────────────────────

/// The entry of a remap.
pub open spec fn remap_entry(
    config: ConfigView,
    base: Seq<char>,
    c: ComboView,
    keys: Seq<Key>,
) -> EntryView {
    EntryView {
        action: key_names(keys),
        origin: origin(config, base, own_remap(config, c)),
        label: label_of(config.bindings, c),
        kind: BindingKind::Remap,
        silent: Some(config.bindings.silent.contains(c)),
        no_pause: None,
    }
}

/// The entry of a command.
pub open spec fn command_entry(
    config: ConfigView,
    base: Seq<char>,
    c: ComboView,
    run: Seq<String>,
) -> EntryView {
    EntryView {
        action: views(run),
        origin: origin(config, base, own_command(config, c)),
        label: label_of(config.bindings, c),
        kind: BindingKind::Command,
        silent: None,
        no_pause: Some(config.bindings.no_pause.contains(c)),
    }
}

/// The entries of remaps, by combo; of two with the same name the later one.
pub open spec fn remap_entries(
    config: ConfigView,
    base: Seq<char>,
    items: Seq<(ComboView, Seq<Key>)>,
) -> Map<Seq<char>, EntryView>
    decreases items.len(),
{
    if items.len() == 0 {
        Map::empty()
    } else {
        let (c, keys) = items.last();
        remap_entries(config, base, items.drop_last()).insert(
            combo_name(c.0, c.1),
            remap_entry(config, base, c, keys),
        )
    }
}

/// `start` with the entries of commands, by combo.
pub open spec fn command_entries(
    config: ConfigView,
    base: Seq<char>,
    start: Map<Seq<char>, EntryView>,
    items: Seq<(ComboView, Seq<String>)>,
) -> Map<Seq<char>, EntryView>
    decreases items.len(),
{
    if items.len() == 0 {
        start
    } else {
        let (c, run) = items.last();
        command_entries(config, base, start, items.drop_last()).insert(
            combo_name(c.0, c.1),
            command_entry(config, base, c, run),
        )
    }
}

/// Where a hint comes from.
pub open spec fn hint_origin(config: ConfigView, base: Seq<char>, from_override: bool) -> Seq<
    char,
> {
    origin(config, base, from_override)
}

/// The entry of a hint that stands alone.
pub open spec fn hint_entry(
    config: ConfigView,
    base: Seq<char>,
    hint: (Seq<char>, bool),
) -> EntryView {
    EntryView {
        action: Seq::empty(),
        origin: hint_origin(config, base, hint.1),
        label: Some(hint.0),
        kind: BindingKind::Hint,
        silent: None,
        no_pause: None,
    }
}

/// `start` with the hints on plain buttons: an entry takes over the label and
/// the origin of its hint.
pub open spec fn relabelled(
    config: ConfigView,
    base: Seq<char>,
    start: Map<Seq<char>, EntryView>,
    items: Seq<(ComboView, (Seq<char>, bool))>,
) -> Map<Seq<char>, EntryView>
    decreases items.len(),
{
    if items.len() == 0 {
        start
    } else {
        let before = relabelled(config, base, start, items.drop_last());
        let (c, hint) = items.last();
        let name = event_name(c.0);
        if c.1.len() > 0 {
            before
        } else if before.contains_key(name) {
            before.insert(
                name,
                EntryView {
                    label: Some(hint.0),
                    origin: hint_origin(config, base, hint.1),
                    ..before[name]
                },
            )
        } else {
            before.insert(name, hint_entry(config, base, hint))
        }
    }
}

fn put_remaps(config: &Config, base: &String, out: &mut KeyedList<String, BindingEntry>)
    requires
        old(out)@ == Map::<Seq<char>, EntryView>::empty(),
    ensures
        final(out)@ == remap_entries(config@, base@, config.bindings.remap.items()),
{
    let table = &config.bindings.remap;
    let n: usize = table.len();
    let ghost items = table.items();
    let mut i: usize = 0;
    assert(items.take(0) =~= Seq::<(ComboView, Seq<Key>)>::empty());
    while i < n
        invariant
            i <= n == items.len(),
            items == table.items(),
            table == &config.bindings.remap,
            out@ == remap_entries(config@, base@, items.take(i as int)),
        decreases n - i,
    {
        let c = table.key_at(i);
        let entry = BindingEntry {
            action: key_texts(table.value_at(i)),
            origin: origin_text(config, base, has_own_remap(config, c)),
            label: label_copy(&config.bindings, c),
            kind: BindingKind::Remap,
            silent: Some(config.bindings.silent.contains_key(c)),
            no_pause: None,
        };
        out.insert(combo_text(c), entry);
        i = i + 1;
        proof {
            assert(items.take(i as int).drop_last() =~= items.take(i - 1));
            assert(items.take(i as int).last() == items[i - 1]);
        }
    }
    assert(items.take(n as int) =~= items);
}

fn put_commands(config: &Config, base: &String, out: &mut KeyedList<String, BindingEntry>)
    ensures
        final(out)@ == command_entries(
            config@,
            base@,
            old(out)@,
            config.bindings.commands.items(),
        ),
{
    let table = &config.bindings.commands;
    let n: usize = table.len();
    let ghost items = table.items();
    let mut i: usize = 0;
    assert(items.take(0) =~= Seq::<(ComboView, Seq<String>)>::empty());
    while i < n
        invariant
            i <= n == items.len(),
            items == table.items(),
            table == &config.bindings.commands,
            out@ == command_entries(config@, base@, old(out)@, items.take(i as int)),
        decreases n - i,
    {
        let c = table.key_at(i);
        let entry = BindingEntry {
            action: copy_texts(table.value_at(i)),
            origin: origin_text(config, base, has_own_command(config, c)),
            label: label_copy(&config.bindings, c),
            kind: BindingKind::Command,
            silent: None,
            no_pause: Some(config.bindings.no_pause.contains_key(c)),
        };
        out.insert(combo_text(c), entry);
        i = i + 1;
        proof {
            assert(items.take(i as int).drop_last() =~= items.take(i - 1));
            assert(items.take(i as int).last() == items[i - 1]);
        }
    }
    assert(items.take(n as int) =~= items);
}

fn lone_hint(config: &Config, base: &String, hint: &Hint) -> (r: BindingEntry)
    ensures
        r@ == hint_entry(config@, base@, hint@),
{
    let action: Vec<String> = Vec::new();
    assert(views(action@) =~= Seq::<Seq<char>>::empty());
    BindingEntry {
        action,
        origin: origin_text(config, base, hint.from_override),
        label: Some(hint.label.clone()),
        kind: BindingKind::Hint,
        silent: None,
        no_pause: None,
    }
}

fn put_labels(config: &Config, base: &String, out: &mut KeyedList<String, BindingEntry>)
    ensures
        final(out)@ == relabelled(
            config@,
            base@,
            old(out)@,
            config.bindings.hints_resolved.items(),
        ),
{
    let table = &config.bindings.hints_resolved;
    let n: usize = table.len();
    let ghost items = table.items();
    let mut i: usize = 0;
    assert(items.take(0) =~= Seq::<(ComboView, (Seq<char>, bool))>::empty());
    while i < n
        invariant
            i <= n == items.len(),
            items == table.items(),
            table == &config.bindings.hints_resolved,
            out@ == relabelled(config@, base@, old(out)@, items.take(i as int)),
        decreases n - i,
    {
        let c = table.key_at(i);
        let hint = table.value_at(i);
        if c.held.len() == 0 {
            let name: String = event_to_str(&c.trigger);
            let entry = match out.get(&name) {
                Some(e) => BindingEntry {
                    action: copy_texts(&e.action),
                    origin: origin_text(config, base, hint.from_override),
                    label: Some(hint.label.clone()),
                    kind: e.kind,
                    silent: e.silent,
                    no_pause: e.no_pause,
                },
                None => lone_hint(config, base, hint),
            };
            out.insert(name, entry);
        }
        i = i + 1;
        proof {
            assert(items.take(i as int).drop_last() =~= items.take(i - 1));
            assert(items.take(i as int).last() == items[i - 1]);
        }
    }
    assert(items.take(n as int) =~= items);
}

// ── Combos of the held modifiers ─────────────────────────────────────────────

/// Whether the modifier button `m` counts as held: it is itself, or a key that
/// it sends on its own is.
pub open spec fn counts_as_held(b: BindingsView, modifiers: Seq<Event>, m: Event) -> bool {
    let alone = (m, Seq::<Event>::empty());
    ||| modifiers.contains(m)
    ||| b.remap.contains_key(alone) && exists|i: int|
        0 <= i < b.remap[alone].len() && modifiers.contains(
            Event::Key(#[trigger] b.remap[alone][i]),
        )
}

/// The custom modifiers that count as held, in their order.
pub open spec fn active_mods(
    b: BindingsView,
    modifiers: Seq<Event>,
    custom: Seq<Event>,
) -> Seq<Event>
    decreases custom.len(),
{
    if custom.len() == 0 {
        Seq::empty()
    } else {
        let init = active_mods(b, modifiers, custom.drop_last());
        if counts_as_held(b, modifiers, custom.last()) {
            init.push(custom.last())
        } else {
            init
        }
    }
}

fn is_held(b: &Bindings, modifiers: &Vec<Event>, m: Event) -> (r: bool)
    ensures
        r == counts_as_held(b@, modifiers@, m),
{
    if has_event(modifiers, m) {
        return true;
    }
    if let Some(keys) = b.remap.get(&Combo::plain(m)) {
        let mut i: usize = 0;
        while i < keys.len()
            invariant
                i <= keys@.len(),
                b@.remap.contains_key((m, Seq::<Event>::empty())),
                keys@ == b@.remap[(m, Seq::<Event>::empty())],
                forall|j: int|
                    0 <= j < i ==> !modifiers@.contains(Event::Key(#[trigger] keys@[j])),
            decreases keys@.len() - i,
        {
            if has_event(modifiers, Event::Key(keys[i])) {
                assert(modifiers@.contains(
                    Event::Key(b@.remap[(m, Seq::<Event>::empty())][i as int]),
                ));
                return true;
            }
            i = i + 1;
        }
    }
    false
}

fn active_modifiers(b: &Bindings, modifiers: &Vec<Event>, custom: &Vec<Event>) -> (r: Vec<Event>)
    ensures
        r@ == active_mods(b@, modifiers@, custom@),
{
    let mut r: Vec<Event> = Vec::new();
    let mut i: usize = 0;
    assert(custom@.take(0) =~= Seq::<Event>::empty());
    while i < custom.len()
        invariant
            i <= custom@.len(),
            r@ == active_mods(b@, modifiers@, custom@.take(i as int)),
        decreases custom@.len() - i,
    {
        if is_held(b, modifiers, custom[i]) {
            r.push(custom[i]);
        }
        i = i + 1;
        proof {
            assert(custom@.take(i as int).drop_last() =~= custom@.take(i - 1));
            assert(custom@.take(i as int).last() == custom@[i - 1]);
        }
    }
    assert(custom@.take(i as int) =~= custom@);
    r
}

/// Whether a combo is the one of the active modifiers: as many, and each one
/// of them.
pub open spec fn is_active_combo(held: Seq<Event>, active: Seq<Event>) -> bool {
    &&& held.len() > 0
    &&& held.len() == active.len()
    &&& forall|i: int| 0 <= i < held.len() ==> active.contains(#[trigger] held[i])
}

/// Whether every member of `a` is one of `b`.
fn all_in(a: &Vec<Event>, b: &Vec<Event>) -> (r: bool)
    ensures
        r == (forall|i: int| 0 <= i < a@.len() ==> b@.contains(#[trigger] a@[i])),
{
    let mut i: usize = 0;
    while i < a.len()
        invariant
            i <= a@.len(),
            forall|j: int| 0 <= j < i ==> b@.contains(#[trigger] a@[j]),
        decreases a@.len() - i,
    {
        if !has_event(b, a[i]) {
            return false;
        }
        i = i + 1;
    }
    true
}

fn is_active(held: &Vec<Event>, active: &Vec<Event>) -> (r: bool)
    ensures
        r == is_active_combo(held@, active@),
{
    held.len() > 0 && held.len() == active.len() && all_in(held, active)
}

/// An entry among the combos of the held modifiers. Flags are not told there.
pub open spec fn without_flags(e: EntryView) -> EntryView {
    EntryView { silent: None, no_pause: None, ..e }
}

/// The entries of active remap combos, by trigger.
pub open spec fn active_remaps(
    config: ConfigView,
    base: Seq<char>,
    active: Seq<Event>,
    items: Seq<(ComboView, Seq<Key>)>,
) -> Map<Seq<char>, EntryView>
    decreases items.len(),
{
    if items.len() == 0 {
        Map::empty()
    } else {
        let before = active_remaps(config, base, active, items.drop_last());
        let (c, keys) = items.last();
        if is_active_combo(c.1, active) {
            before.insert(event_name(c.0), without_flags(remap_entry(config, base, c, keys)))
        } else {
            before
        }
    }
}

/// `start` with the entries of active command combos, by trigger.
pub open spec fn active_commands(
    config: ConfigView,
    base: Seq<char>,
    active: Seq<Event>,
    start: Map<Seq<char>, EntryView>,
    items: Seq<(ComboView, Seq<String>)>,
) -> Map<Seq<char>, EntryView>
    decreases items.len(),
{
    if items.len() == 0 {
        start
    } else {
        let before = active_commands(config, base, active, start, items.drop_last());
        let (c, run) = items.last();
        if is_active_combo(c.1, active) {
            before.insert(event_name(c.0), without_flags(command_entry(config, base, c, run)))
        } else {
            before
        }
    }
}

/// The entry of a movement.
pub open spec fn movement_entry(
    config: ConfigView,
    base: Seq<char>,
    c: ComboView,
    m: Relative,
) -> EntryView {
    EntryView {
        action: seq![relative_name(m)],
        origin: origin(config, base, own_movement(config, c)),
        label: label_of(config.bindings, c),
        kind: BindingKind::Movement,
        silent: None,
        no_pause: None,
    }
}

/// `start` with the entries of active movement combos, by trigger.
pub open spec fn active_movements(
    config: ConfigView,
    base: Seq<char>,
    active: Seq<Event>,
    start: Map<Seq<char>, EntryView>,
    items: Seq<(ComboView, Relative)>,
) -> Map<Seq<char>, EntryView>
    decreases items.len(),
{
    if items.len() == 0 {
        start
    } else {
        let before = active_movements(config, base, active, start, items.drop_last());
        let (c, m) = items.last();
        if is_active_combo(c.1, active) {
            before.insert(event_name(c.0), movement_entry(config, base, c, m))
        } else {
            before
        }
    }
}

/// `start` with the hints of active combos on triggers that have no entry.
pub open spec fn active_hints(
    config: ConfigView,
    base: Seq<char>,
    active: Seq<Event>,
    start: Map<Seq<char>, EntryView>,
    items: Seq<(ComboView, (Seq<char>, bool))>,
) -> Map<Seq<char>, EntryView>
    decreases items.len(),
{
    if items.len() == 0 {
        start
    } else {
        let before = active_hints(config, base, active, start, items.drop_last());
        let (c, hint) = items.last();
        if is_active_combo(c.1, active) && !before.contains_key(event_name(c.0)) {
            before.insert(event_name(c.0), hint_entry(config, base, hint))
        } else {
            before
        }
    }
}

fn put_active_remaps(
    config: &Config,
    base: &String,
    active: &Vec<Event>,
    out: &mut KeyedList<String, BindingEntry>,
)
    requires
        old(out)@ == Map::<Seq<char>, EntryView>::empty(),
    ensures
        final(out)@ == active_remaps(config@, base@, active@, config.bindings.remap.items()),
{
    let table = &config.bindings.remap;
    let n: usize = table.len();
    let ghost items = table.items();
    let mut i: usize = 0;
    assert(items.take(0) =~= Seq::<(ComboView, Seq<Key>)>::empty());
    while i < n
        invariant
            i <= n == items.len(),
            items == table.items(),
            table == &config.bindings.remap,
            out@ == active_remaps(config@, base@, active@, items.take(i as int)),
        decreases n - i,
    {
        let c = table.key_at(i);
        if is_active(&c.held, active) {
            let entry = BindingEntry {
                action: key_texts(table.value_at(i)),
                origin: origin_text(config, base, has_own_remap(config, c)),
                label: label_copy(&config.bindings, c),
                kind: BindingKind::Remap,
                silent: None,
                no_pause: None,
            };
            out.insert(event_to_str(&c.trigger), entry);
        }
        i = i + 1;
        proof {
            assert(items.take(i as int).drop_last() =~= items.take(i - 1));
            assert(items.take(i as int).last() == items[i - 1]);
        }
    }
    assert(items.take(n as int) =~= items);
}

fn put_active_commands(
    config: &Config,
    base: &String,
    active: &Vec<Event>,
    out: &mut KeyedList<String, BindingEntry>,
)
    ensures
        final(out)@ == active_commands(
            config@,
            base@,
            active@,
            old(out)@,
            config.bindings.commands.items(),
        ),
{
    let table = &config.bindings.commands;
    let n: usize = table.len();
    let ghost items = table.items();
    let mut i: usize = 0;
    assert(items.take(0) =~= Seq::<(ComboView, Seq<String>)>::empty());
    while i < n
        invariant
            i <= n == items.len(),
            items == table.items(),
            table == &config.bindings.commands,
            out@ == active_commands(config@, base@, active@, old(out)@, items.take(i as int)),
        decreases n - i,
    {
        let c = table.key_at(i);
        if is_active(&c.held, active) {
            let entry = BindingEntry {
                action: copy_texts(table.value_at(i)),
                origin: origin_text(config, base, has_own_command(config, c)),
                label: label_copy(&config.bindings, c),
                kind: BindingKind::Command,
                silent: None,
                no_pause: None,
            };
            out.insert(event_to_str(&c.trigger), entry);
        }
        i = i + 1;
        proof {
            assert(items.take(i as int).drop_last() =~= items.take(i - 1));
            assert(items.take(i as int).last() == items[i - 1]);
        }
    }
    assert(items.take(n as int) =~= items);
}

fn put_active_movements(
    config: &Config,
    base: &String,
    active: &Vec<Event>,
    out: &mut KeyedList<String, BindingEntry>,
)
    ensures
        final(out)@ == active_movements(
            config@,
            base@,
            active@,
            old(out)@,
            config.bindings.movements.items(),
        ),
{
    let table = &config.bindings.movements;
    let n: usize = table.len();
    let ghost items = table.items();
    let mut i: usize = 0;
    assert(items.take(0) =~= Seq::<(ComboView, Relative)>::empty());
    while i < n
        invariant
            i <= n == items.len(),
            items == table.items(),
            table == &config.bindings.movements,
            out@ == active_movements(config@, base@, active@, old(out)@, items.take(i as int)),
        decreases n - i,
    {
        let c = table.key_at(i);
        if is_active(&c.held, active) {
            let mut action: Vec<String> = Vec::new();
            action.push(table.value_at(i).name().to_owned());
            assert(views(action@) =~= seq![relative_name(items[i as int].1)]);
            let entry = BindingEntry {
                action,
                origin: origin_text(config, base, has_own_movement(config, c)),
                label: label_copy(&config.bindings, c),
                kind: BindingKind::Movement,
                silent: None,
                no_pause: None,
            };
            out.insert(event_to_str(&c.trigger), entry);
        }
        i = i + 1;
        proof {
            assert(items.take(i as int).drop_last() =~= items.take(i - 1));
            assert(items.take(i as int).last() == items[i - 1]);
        }
    }
    assert(items.take(n as int) =~= items);
}

fn put_active_hints(
    config: &Config,
    base: &String,
    active: &Vec<Event>,
    out: &mut KeyedList<String, BindingEntry>,
)
    ensures
        final(out)@ == active_hints(
            config@,
            base@,
            active@,
            old(out)@,
            config.bindings.hints_resolved.items(),
        ),
{
    let table = &config.bindings.hints_resolved;
    let n: usize = table.len();
    let ghost items = table.items();
    let mut i: usize = 0;
    assert(items.take(0) =~= Seq::<(ComboView, (Seq<char>, bool))>::empty());
    while i < n
        invariant
            i <= n == items.len(),
            items == table.items(),
            table == &config.bindings.hints_resolved,
            out@ == active_hints(config@, base@, active@, old(out)@, items.take(i as int)),
        decreases n - i,
    {
        let c = table.key_at(i);
        if is_active(&c.held, active) {
            let name: String = event_to_str(&c.trigger);
            if !out.contains_key(&name) {
                out.insert(name, lone_hint(config, base, table.value_at(i)));
            }
        }
        i = i + 1;
        proof {
            assert(items.take(i as int).drop_last() =~= items.take(i - 1));
            assert(items.take(i as int).last() == items[i - 1]);
        }
    }
    assert(items.take(n as int) =~= items);
}

// ── Active outputs ───────────────────────────────────────────────────────────

/// The rank of a key in shortcut notation: meta, control, alt, shift, others.
pub open spec fn modifier_rank(key: Seq<char>) -> u8 {
    if key == "KEY_LEFTMETA"@ || key == "KEY_RIGHTMETA"@ {
        0
    } else if key == "KEY_LEFTCTRL"@ || key == "KEY_RIGHTCTRL"@ {
        1
    } else if key == "KEY_LEFTALT"@ || key == "KEY_RIGHTALT"@ {
        2
    } else if key == "KEY_LEFTSHIFT"@ || key == "KEY_RIGHTSHIFT"@ {
        3
    } else {
        4
    }
}

/// What keys are sorted by: their rank, then their name.
pub fn modifier_sort_key(key: &str) -> (r: (u8, String))
    ensures
        r.0 == modifier_rank(key@),
        r.1@ == key@,
{
    let rank: u8 = if same_text(key, "KEY_LEFTMETA") || same_text(key, "KEY_RIGHTMETA") {
        0
    } else if same_text(key, "KEY_LEFTCTRL") || same_text(key, "KEY_RIGHTCTRL") {
        1
    } else if same_text(key, "KEY_LEFTALT") || same_text(key, "KEY_RIGHTALT") {
        2
    } else if same_text(key, "KEY_LEFTSHIFT") || same_text(key, "KEY_RIGHTSHIFT") {
        3
    } else {
        4
    };
    (rank, key.to_owned())
}

/// The name of a key that is being sent, in the order of shortcut notation.
pub struct OutputName {
    pub name: String,
}

impl View for OutputName {
    type V = Seq<char>;

    open spec fn view(&self) -> Seq<char> {
        self.name@
    }
}

impl Label for OutputName {
    fn same(&self, other: &Self) -> (r: bool) {
        self.name == other.name
    }

    fn replicate_label(&self) -> (r: Self) {
        OutputName { name: self.name.clone() }
    }
}

/// The order of shortcut notation: by rank, then by name.
pub open spec fn output_before(a: Seq<char>, b: Seq<char>) -> bool {
    modifier_rank(a) < modifier_rank(b) || (modifier_rank(a) == modifier_rank(b) && text_before(
        a,
        b,
    ))
}

impl Ordered for OutputName {
    open spec fn before(a: Seq<char>, b: Seq<char>) -> bool {
        output_before(a, b)
    }

    proof fn before_irreflexive(a: Seq<char>) {
        <String as Ordered>::before_irreflexive(a);
    }

    proof fn before_transitive(a: Seq<char>, b: Seq<char>, c: Seq<char>) {
        if modifier_rank(a) == modifier_rank(c) {
            <String as Ordered>::before_transitive(a, b, c);
        }
    }

    proof fn before_total(a: Seq<char>, b: Seq<char>) {
        <String as Ordered>::before_total(a, b);
    }

    fn is_before(&self, other: &Self) -> (r: bool) {
        let (p, a): (u8, String) = modifier_sort_key(self.name.as_str());
        let (q, b): (u8, String) = modifier_sort_key(other.name.as_str());
        p < q || (p == q && a.is_before(&b))
    }
}

/// `start` with each of `keys` that it lacks, marked `silent`.
pub open spec fn with_outputs(
    start: Map<Seq<char>, bool>,
    keys: Seq<Key>,
    silent: bool,
) -> Map<Seq<char>, bool>
    decreases keys.len(),
{
    if keys.len() == 0 {
        start
    } else {
        let before = with_outputs(start, keys.drop_last(), silent);
        if before.contains_key(key_name(keys.last())) {
            before
        } else {
            before.insert(key_name(keys.last()), silent)
        }
    }
}

/// The keys that the held buttons send under the modifiers `mods`, each with
/// whether it is silent. The first button that sends a key decides.
pub open spec fn outputs(
    b: BindingsView,
    held: Seq<Event>,
    mods: Seq<Event>,
    chain_only: bool,
) -> Map<Seq<char>, bool>
    decreases held.len(),
{
    if held.len() == 0 {
        Map::empty()
    } else {
        let before = outputs(b, held.drop_last(), mods, chain_only);
        match resolution(b, held.last(), mods, chain_only) {
            Resolution::Keys { keys, .. } => with_outputs(
                before,
                keys,
                flagged(b.silent, held.last(), mods),
            ),
            _ => before,
        }
    }
}

/// Whether hold bindings need a held modifier. They do unless a setting says
/// otherwise.
pub open spec fn is_chain_only(settings: Map<Seq<char>, Seq<char>>) -> bool {
    if settings.contains_key("CHAIN_ONLY"@) {
        settings["CHAIN_ONLY"@] == "true"@
    } else {
        true
    }
}

/// Whether hold bindings need a held modifier.
pub fn chain_only_setting(settings: &TextTable) -> (r: bool)
    ensures
        r == is_chain_only(settings@),
{
    match settings.get(&"CHAIN_ONLY".to_owned()) {
        Some(v) => same_text(v.as_str(), "true"),
        None => true,
    }
}

/// Whether a snapshot tells where the sticks and pads are. It does not unless
/// a setting says so.
pub fn exports_analog_state(settings: &TextTable) -> (r: bool)
    ensures
        r == (settings@.contains_key("ANALOG_STATE_EXPORT"@)
            && settings@["ANALOG_STATE_EXPORT"@] == "true"@),
{
    match settings.get(&"ANALOG_STATE_EXPORT".to_owned()) {
        Some(v) => same_text(v.as_str(), "true"),
        None => false,
    }
}

/// The pairs of a list of outputs.
pub open spec fn output_pairs(v: Seq<ActiveOutput>) -> Seq<(Seq<char>, bool)> {
    Seq::new(v.len(), |i: int| (v[i].key@, v[i].silent))
}

/// Whether `v` lists the outputs `m` in the order of shortcut notation.
pub open spec fn lists_outputs(v: Seq<ActiveOutput>, m: Map<Seq<char>, bool>) -> bool {
    &&& forall|i: int, j: int|
        #![trigger v[i], v[j]]
        0 <= i < j < v.len() ==> output_before(v[i].key@, v[j].key@)
    &&& map_of(output_pairs(v)) == m
}

fn add_outputs(out: &mut KeyedList<String, bool>, keys: &Vec<Key>, silent: bool)
    ensures
        final(out)@ == with_outputs(old(out)@, keys@, silent),
{
    let mut i: usize = 0;
    assert(keys@.take(0) =~= Seq::<Key>::empty());
    while i < keys.len()
        invariant
            i <= keys@.len(),
            out@ == with_outputs(old(out)@, keys@.take(i as int), silent),
        decreases keys@.len() - i,
    {
        let name: String = keys[i].name();
        if !out.contains_key(&name) {
            out.insert(name, silent);
        }
        i = i + 1;
        proof {
            assert(keys@.take(i as int).drop_last() =~= keys@.take(i - 1));
            assert(keys@.take(i as int).last() == keys@[i - 1]);
        }
    }
    assert(keys@.take(i as int) =~= keys@);
}

fn collect_outputs(
    b: &Bindings,
    held: &Vec<Event>,
    mods: &Vec<Event>,
    chain_only: bool,
) -> (out: KeyedList<String, bool>)
    ensures
        out@ == outputs(b@, held@, mods@, chain_only),
{
    let mut out: KeyedList<String, bool> = KeyedList::new();
    let mut i: usize = 0;
    assert(held@.take(0) =~= Seq::<Event>::empty());
    while i < held.len()
        invariant
            i <= held@.len(),
            out@ == outputs(b@, held@.take(i as int), mods@, chain_only),
        decreases held@.len() - i,
    {
        let silent: bool = is_flagged(&b.silent, &Combo::of(held[i], mods));
        match resolve_binding(b, held[i], mods, chain_only) {
            ResolvedBinding::Keys { keys, .. } => {
                add_outputs(&mut out, &keys, silent);
            },
            _ => {},
        }
        i = i + 1;
        proof {
            assert(held@.take(i as int).drop_last() =~= held@.take(i - 1));
            assert(held@.take(i as int).last() == held@[i - 1]);
        }
    }
    assert(held@.take(i as int) =~= held@);
    out
}

fn sort_outputs(table: &KeyedList<String, bool>) -> (r: Vec<ActiveOutput>)
    ensures
        lists_outputs(r@, table@),
{
    let mut names: Vec<OutputName> = Vec::new();
    let n: usize = table.len();
    let ghost items = table.items();
    let ghost keys = Seq::new(items.len(), |i: int| items[i].0);
    let mut i: usize = 0;
    assert(keys.take(0) =~= Seq::<Seq<char>>::empty());
    assert(views(names@) =~= Seq::<Seq<char>>::empty());
    while i < n
        invariant
            i <= n == items.len(),
            items == table.items(),
            keys == Seq::new(items.len(), |j: int| items[j].0),
            views(names@) == arrange::<OutputName>(keys.take(i as int)),
        decreases n - i,
    {
        put_in_place(&mut names, OutputName { name: table.key_at(i).clone() });
        i = i + 1;
        proof {
            assert(keys.take(i as int).drop_last() =~= keys.take(i - 1));
            assert(keys.take(i as int).last() == items[i - 1].0);
        }
    }
    proof {
        assert(keys.take(n as int) =~= keys);
        lemma_arrange::<OutputName>(keys);
        table.lemma_items();
        assert forall|x: Seq<char>| #[trigger] views(names@).contains(x) <==> table@.contains_key(
            x,
        ) by {
            if keys.contains(x) {
                let j = choose|j: int| 0 <= j < keys.len() && keys[j] == x;
                assert(table@.contains_key(items[j].0));
            }
            if table@.contains_key(x) {
                let j = choose|j: int| 0 <= j < items.len() && (#[trigger] items[j]).0 == x;
                assert(keys[j] == x);
            }
        }
    }
    let mut r: Vec<ActiveOutput> = Vec::new();
    let mut k: usize = 0;
    while k < names.len()
        invariant
            k <= names@.len(),
            r@.len() == k,
            ascending::<OutputName>(views(names@)),
            forall|x: Seq<char>| #[trigger]
                views(names@).contains(x) <==> table@.contains_key(x),
            forall|j: int|
                0 <= j < k ==> (#[trigger] r@[j]).key@ == views(names@)[j]
                    && table@.contains_key(r@[j].key@) && r@[j].silent == table@[r@[j].key@],
        decreases names@.len() - k,
    {
        proof {
            assert(views(names@)[k as int] == names@[k as int]@);
            assert(views(names@).contains(names@[k as int]@));
        }
        let silent: bool = match table.get(&names[k].name) {
            Some(s) => *s,
            None => false,
        };
        r.push(ActiveOutput { key: names[k].name.clone(), silent });
        k = k + 1;
    }
    proof {
        let pairs = output_pairs(r@);
        let s = views(names@);
        assert forall|a: int, b: int|
            #![trigger r@[a], r@[b]]
            0 <= a < b < r@.len() implies output_before(r@[a].key@, r@[b].key@) by {
            assert(s[a] == r@[a].key@ && s[b] == r@[b].key@);
            assert(OutputName::before(s[a], s[b]));
        }
        assert forall|a: int, b: int|
            #![trigger pairs[a], pairs[b]]
            0 <= a < pairs.len() && 0 <= b < pairs.len() && pairs[a].0 == pairs[b].0 implies a
            == b by {
            assert(r@[a].key@ == pairs[a].0 && r@[b].key@ == pairs[b].0);
            if a < b {
                OutputName::before_irreflexive(r@[a].key@);
            } else if b < a {
                assert(output_before(r@[b].key@, r@[a].key@));
                OutputName::before_irreflexive(r@[a].key@);
            }
        }
        lemma_map_of(pairs);
        let m = map_of(pairs);
        assert forall|x: Seq<char>| m.contains_key(x) <==> #[trigger] table@.contains_key(x) by {
            if m.contains_key(x) {
                let j = choose|j: int| 0 <= j < pairs.len() && (#[trigger] pairs[j]).0 == x;
                assert(r@[j].key@ == x);
            }
            if table@.contains_key(x) {
                assert(s.contains(x));
                let j = choose|j: int| 0 <= j < s.len() && s[j] == x;
                assert(r@[j].key@ == s[j]);
                assert(pairs[j].0 == x);
            }
        }
        assert forall|x: Seq<char>| m.contains_key(x) implies #[trigger] m[x] == table@[x] by {
            let j = choose|j: int| 0 <= j < pairs.len() && (#[trigger] pairs[j]).0 == x;
            assert(r@[j].key@ == x);
        }
        assert(m =~= table@);
    }
    r
}

// ── Available modifiers ──────────────────────────────────────────────────────

/// Whether `combo` holds `m` and everything that is already held.
pub open spec fn qualifies(m: Event, combo: Seq<Event>, active: Seq<Event>) -> bool {
    combo.contains(m) && forall|i: int|
        0 <= i < active.len() ==> combo.contains(#[trigger] active[i])
}

/// Whether `b` binds a combo to anything.
pub open spec fn binds(b: BindingsView, c: ComboView) -> bool {
    b.remap.contains_key(c) || b.commands.contains_key(c) || b.movements.contains_key(c)
}

/// Whether some combo of `b` qualifies for `m`.
pub open spec fn unlocks(b: BindingsView, m: Event, active: Seq<Event>) -> bool {
    exists|c: ComboView| qualifies(m, c.1, active) && #[trigger] binds(b, c)
}

fn does_qualify(m: Event, combo: &Vec<Event>, active: &Vec<Event>) -> (r: bool)
    ensures
        r == qualifies(m, combo@, active@),
{
    has_event(combo, m) && all_in(active, combo)
}

fn table_unlocks<V: Replicate>(table: &ComboTable<V>, m: Event, active: &Vec<Event>) -> (r: bool)
    ensures
        r == exists|c: ComboView|
            qualifies(m, c.1, active@) && #[trigger] table@.contains_key(c),
{
    let n: usize = table.len();
    let ghost items = table.items();
    proof {
        table.lemma_items();
    }
    let mut i: usize = 0;
    while i < n
        invariant
            i <= n == items.len(),
            items == table.items(),
            forall|j: int| 0 <= j < i ==> !qualifies(m, (#[trigger] items[j]).0.1, active@),
        decreases n - i,
    {
        let c = table.key_at(i);
        if does_qualify(m, &c.held, active) {
            assert(table@.contains_key(c@));
            return true;
        }
        i = i + 1;
    }
    proof {
        if exists|c: ComboView| qualifies(m, c.1, active@) && #[trigger] table@.contains_key(c) {
            let c = choose|c: ComboView|
                qualifies(m, c.1, active@) && #[trigger] table@.contains_key(c);
            let j = choose|j: int| 0 <= j < items.len() && (#[trigger] items[j]).0 == c;
            assert(!qualifies(m, items[j].0.1, active@));
        }
    }
    false
}

fn does_unlock(b: &Bindings, m: Event, active: &Vec<Event>) -> (r: bool)
    ensures
        r == unlocks(b@, m, active@),
{
    let by_remap: bool = table_unlocks(&b.remap, m, active);
    let by_command: bool = table_unlocks(&b.commands, m, active);
    let by_movement: bool = table_unlocks(&b.movements, m, active);
    proof {
        if unlocks(b@, m, active@) {
            let c = choose|c: ComboView|
                qualifies(m, c.1, active@) && #[trigger] binds(b@, c);
            if b@.remap.contains_key(c) {
                assert(qualifies(m, c.1, active@) && b.remap@.contains_key(c));
                assert(by_remap);
            } else if b@.commands.contains_key(c) {
                assert(qualifies(m, c.1, active@) && b.commands@.contains_key(c));
                assert(by_command);
            } else {
                assert(qualifies(m, c.1, active@) && b.movements@.contains_key(c));
                assert(by_movement);
            }
        }
        if by_remap {
            let c = choose|c: ComboView|
                qualifies(m, c.1, active@) && #[trigger] b.remap@.contains_key(c);
            assert(binds(b@, c));
            assert(unlocks(b@, m, active@));
        }
        if by_command {
            let c = choose|c: ComboView|
                qualifies(m, c.1, active@) && #[trigger] b.commands@.contains_key(c);
            assert(binds(b@, c));
            assert(unlocks(b@, m, active@));
        }
        if by_movement {
            let c = choose|c: ComboView|
                qualifies(m, c.1, active@) && #[trigger] b.movements@.contains_key(c);
            assert(binds(b@, c));
            assert(unlocks(b@, m, active@));
        }
    }
    by_remap || by_command || by_movement
}

/// The custom modifiers that are not held and would unlock a combo, each with
/// whether one of the application's own combos is among them.
pub open spec fn available(
    config: ConfigView,
    active: Seq<Event>,
    custom: Seq<Event>,
) -> Seq<(Seq<char>, bool)>
    decreases custom.len(),
{
    if custom.len() == 0 {
        Seq::empty()
    } else {
        let init = available(config, active, custom.drop_last());
        let m = custom.last();
        if !active.contains(m) && unlocks(config.bindings, m, active) {
            init.push(
                (
                    event_name(m),
                    config.override_bindings matches Some(o) && unlocks(o, m, active),
                ),
            )
        } else {
            init
        }
    }
}

/// The pairs of a list of modifiers.
pub open spec fn modifier_pairs(v: Seq<AvailableModifier>) -> Seq<(Seq<char>, bool)> {
    Seq::new(v.len(), |i: int| (v[i].name@, v[i].has_app_combos))
}

fn available_modifiers(config: &Config, active: &Vec<Event>) -> (r: Vec<AvailableModifier>)
    ensures
        modifier_pairs(r@) == available(config@, active@, config.mapped_modifiers.custom@),
{
    let custom = &config.mapped_modifiers.custom;
    let mut r: Vec<AvailableModifier> = Vec::new();
    let mut i: usize = 0;
    assert(custom@.take(0) =~= Seq::<Event>::empty());
    assert(modifier_pairs(r@) =~= Seq::<(Seq<char>, bool)>::empty());
    while i < custom.len()
        invariant
            i <= custom@.len(),
            modifier_pairs(r@) == available(config@, active@, custom@.take(i as int)),
        decreases custom@.len() - i,
    {
        let ghost before = modifier_pairs(r@);
        let m: Event = custom[i];
        if !has_event(active, m) && does_unlock(&config.bindings, m, active) {
            let has_app_combos: bool = match &config.override_bindings {
                Some(o) => does_unlock(o, m, active),
                None => false,
            };
            r.push(AvailableModifier { name: event_to_str(&m), has_app_combos });
            assert(modifier_pairs(r@) =~= before.push((event_name(m), has_app_combos)));
        }
        i = i + 1;
        proof {
            assert(custom@.take(i as int).drop_last() =~= custom@.take(i - 1));
            assert(custom@.take(i as int).last() == m);
        }
    }
    assert(custom@.take(i as int) =~= custom@);
    r
}

// ── Building ─────────────────────────────────────────────────────────────────

/// Every binding of a configuration, by its combo written out.
pub open spec fn all_bindings(config: Config, stack: Seq<String>) -> Map<Seq<char>, EntryView> {
    let v = config@;
    let base = base_name(v, stack);
    relabelled(
        v,
        base,
        command_entries(
            v,
            base,
            remap_entries(v, base, config.bindings.remap.items()),
            config.bindings.commands.items(),
        ),
        config.bindings.hints_resolved.items(),
    )
}

/// What the combos of the active modifiers do, by trigger.
pub open spec fn active_combos(
    config: Config,
    active: Seq<Event>,
    stack: Seq<String>,
) -> Map<Seq<char>, EntryView> {
    let v = config@;
    let base = base_name(v, stack);
    active_hints(
        v,
        base,
        active,
        active_movements(
            v,
            base,
            active,
            active_commands(
                v,
                base,
                active,
                active_remaps(v, base, active, config.bindings.remap.items()),
                config.bindings.commands.items(),
            ),
            config.bindings.movements.items(),
        ),
        config.bindings.hints_resolved.items(),
    )
}

fn copy_action(a: &Option<LastAction>) -> (r: Option<LastAction>)
    ensures
        last_view(r) == last_view(*a),
{
    match a {
        Some(y) => Some(
            LastAction {
                kind: y.kind.clone(),
                value: match &y.value {
                    ActionValue::Keys(q) => ActionValue::Keys(copy_texts(q)),
                    ActionValue::Text(q) => ActionValue::Text(q.clone()),
                },
                ts_micros: y.ts_micros,
                label: copy_text(&y.label),
                silent: y.silent,
            },
        ),
        None => None,
    }
}

/// The snapshot of a configuration in a situation. `modifiers` are the held
/// modifiers, `held_keys` all held buttons, `config_stack` the names of the
/// configurations from the base up.
pub fn build_state(
    config: &Config,
    modifiers: &Vec<Event>,
    layout: u16,
    paused: bool,
    gaming_mode: bool,
    held_keys: &Vec<Event>,
    last_action: &Option<LastAction>,
    config_stack: &Vec<String>,
    gaming_mode_config: &GamingModeConfig,
) -> (r: State)
    ensures
        r.context.active_app@ == if config_stack@.len() > 1 {
            config_stack@[1]@
        } else {
            "default"@
        },
        r.context.config_stack@ == config_stack@,
        r.context.layout == layout,
        r.context.paused == paused,
        r.context.gaming_mode == gaming_mode,
        views(r.context.held_modifiers@) == event_names(modifiers@),
        views(r.context.active_buttons@) == event_names(held_keys@),
        lists_outputs(
            r.context.active_outputs@,
            outputs(
                config.bindings@,
                held_keys@,
                canonical(modifiers@),
                is_chain_only(config.settings@),
            ),
        ),
        ({
            let active = active_mods(
                config.bindings@,
                modifiers@,
                config.mapped_modifiers.custom@,
            );
            &&& modifier_pairs(r.context.available_modifiers@) == available(
                config@,
                active,
                config.mapped_modifiers.custom@,
            )
            &&& r.modifier_active@ == active_combos(*config, active, config_stack@)
        }),
        last_view(r.last_action) == last_view(*last_action),
        r.bindings@ == all_bindings(*config, config_stack@),
        match (r.gaming_mode_trigger, gaming_mode_config.trigger) {
            (Some(i), Some(t)) => i.key@ == key_name(t.key) && i.label@ == "Gaming Mode"@,
            (None, None) => true,
            _ => false,
        },
{
    let base: String = if config_stack.len() > 0 {
        config_stack[0].clone()
    } else {
        config.name.clone()
    };
    let mut bindings: KeyedList<String, BindingEntry> = KeyedList::new();
    put_remaps(config, &base, &mut bindings);
    put_commands(config, &base, &mut bindings);
    put_labels(config, &base, &mut bindings);

    let active: Vec<Event> = active_modifiers(
        &config.bindings,
        modifiers,
        &config.mapped_modifiers.custom,
    );
    let mut modifier_active: KeyedList<String, BindingEntry> = KeyedList::new();
    put_active_remaps(config, &base, &active, &mut modifier_active);
    put_active_commands(config, &base, &active, &mut modifier_active);
    put_active_movements(config, &base, &active, &mut modifier_active);
    put_active_hints(config, &base, &active, &mut modifier_active);

    let mods: Vec<Event> = canonical_list(modifiers);
    let table = collect_outputs(
        &config.bindings,
        held_keys,
        &mods,
        chain_only_setting(&config.settings),
    );
    State {
        context: Context {
            active_app: if config_stack.len() > 1 {
                config_stack[1].clone()
            } else {
                "default".to_owned()
            },
            config_stack: copy_texts(config_stack),
            layout,
            paused,
            gaming_mode,
            held_modifiers: event_texts(modifiers),
            active_buttons: event_texts(held_keys),
            active_outputs: sort_outputs(&table),
            available_modifiers: available_modifiers(config, &active),
        },
        last_action: copy_action(last_action),
        bindings,
        modifier_active,
        gaming_mode_trigger: match gaming_mode_config.trigger {
            Some(t) => Some(TriggerInfo { key: t.key.name(), label: "Gaming Mode".to_owned() }),
            None => None,
        },
    }
}

// ── What the snapshot tells ──────────────────────────────────────────────────

/// A custom modifier counts as held where it is held itself, or where one of
/// the keys that it sends on its own is. No other modifier does.
pub proof fn law_held_modifiers_are_active(
    b: BindingsView,
    modifiers: Seq<Event>,
    custom: Seq<Event>,
    m: Event,
)
    ensures
        active_mods(b, modifiers, custom).contains(m) <==> custom.contains(m) && (
        modifiers.contains(m) || (b.remap.contains_key((m, Seq::<Event>::empty())) && exists|i: int|
            0 <= i < b.remap[(m, Seq::<Event>::empty())].len() && modifiers.contains(
                Event::Key(#[trigger] b.remap[(m, Seq::<Event>::empty())][i]),
            ))),
    decreases custom.len(),
{
    if custom.len() > 0 {
        let init = custom.drop_last();
        law_held_modifiers_are_active(b, modifiers, init, m);
        let before = active_mods(b, modifiers, init);
        let all = active_mods(b, modifiers, custom);
        assert(custom =~= init.push(custom.last()));
        lemma_push_holds(init, custom.last(), m);
        lemma_push_holds(before, custom.last(), m);
    }
}

proof fn lemma_push_holds(s: Seq<Event>, last: Event, x: Event)
    ensures
        s.push(last).contains(x) <==> s.contains(x) || x == last,
{
    let all = s.push(last);
    assert(all[s.len() as int] == last);
    if s.contains(x) {
        let i = choose|i: int| 0 <= i < s.len() && s[i] == x;
        assert(all[i] == x);
    }
    if all.contains(x) {
        let i = choose|i: int| 0 <= i < all.len() && all[i] == x;
        if i < s.len() {
            assert(s[i] == x);
        }
    }
}

proof fn lemma_active_remap(
    config: ConfigView,
    base: Seq<char>,
    active: Seq<Event>,
    items: Seq<(ComboView, Seq<Key>)>,
    n: Seq<char>,
    c: ComboView,
)
    requires
        forall|j: int|
            0 <= j < items.len() && is_active_combo((#[trigger] items[j]).0.1, active)
                && event_name(items[j].0.0) == n ==> items[j].0 == c,
    ensures
        ({
            let r = active_remaps(config, base, active, items);
            let hit = exists|j: int|
                0 <= j < items.len() && (#[trigger] items[j]).0 == c && is_active_combo(c.1, active)
                    && event_name(c.0) == n;
            &&& hit ==> exists|j: int|
                0 <= j < items.len() && (#[trigger] items[j]).0 == c && r.contains_key(n) && r[n]
                    == without_flags(remap_entry(config, base, c, items[j].1))
            &&& !hit ==> r.contains_key(n) == false && (true)
        }),
    decreases items.len(),
{
    if items.len() > 0 {
        let init = items.drop_last();
        assert forall|j: int|
            0 <= j < init.len() && is_active_combo((#[trigger] init[j]).0.1, active) && event_name(
                init[j].0.0,
            ) == n implies init[j].0 == c by {
            assert(init[j] == items[j]);
        }
        lemma_active_remap(config, base, active, init, n, c);
        assert forall|j: int| 0 <= j < init.len() implies #[trigger] init[j] == items[j] by {}
        assert forall|j: int| 0 <= j < init.len() implies #[trigger] items[j] == init[j] by {}
        assert(items[items.len() - 1] == items.last());
    }
}

proof fn lemma_active_command(
    config: ConfigView,
    base: Seq<char>,
    active: Seq<Event>,
    start: Map<Seq<char>, EntryView>,
    items: Seq<(ComboView, Seq<String>)>,
    n: Seq<char>,
    c: ComboView,
)
    requires
        forall|j: int|
            0 <= j < items.len() && is_active_combo((#[trigger] items[j]).0.1, active)
                && event_name(items[j].0.0) == n ==> items[j].0 == c,
    ensures
        ({
            let r = active_commands(config, base, active, start, items);
            let hit = exists|j: int|
                0 <= j < items.len() && (#[trigger] items[j]).0 == c && is_active_combo(c.1, active)
                    && event_name(c.0) == n;
            &&& hit ==> exists|j: int|
                0 <= j < items.len() && (#[trigger] items[j]).0 == c && r.contains_key(n) && r[n]
                    == without_flags(command_entry(config, base, c, items[j].1))
            &&& !hit ==> r.contains_key(n) == start.contains_key(n) && (start.contains_key(n) ==> r[n] == start[n])
        }),
    decreases items.len(),
{
    if items.len() > 0 {
        let init = items.drop_last();
        assert forall|j: int|
            0 <= j < init.len() && is_active_combo((#[trigger] init[j]).0.1, active) && event_name(
                init[j].0.0,
            ) == n implies init[j].0 == c by {
            assert(init[j] == items[j]);
        }
        lemma_active_command(config, base, active, start, init, n, c);
        assert forall|j: int| 0 <= j < init.len() implies #[trigger] init[j] == items[j] by {}
        assert forall|j: int| 0 <= j < init.len() implies #[trigger] items[j] == init[j] by {}
        assert(items[items.len() - 1] == items.last());
    }
}

proof fn lemma_active_movement(
    config: ConfigView,
    base: Seq<char>,
    active: Seq<Event>,
    start: Map<Seq<char>, EntryView>,
    items: Seq<(ComboView, Relative)>,
    n: Seq<char>,
    c: ComboView,
)
    requires
        forall|j: int|
            0 <= j < items.len() && is_active_combo((#[trigger] items[j]).0.1, active)
                && event_name(items[j].0.0) == n ==> items[j].0 == c,
    ensures
        ({
            let r = active_movements(config, base, active, start, items);
            let hit = exists|j: int|
                0 <= j < items.len() && (#[trigger] items[j]).0 == c && is_active_combo(c.1, active)
                    && event_name(c.0) == n;
            &&& hit ==> exists|j: int|
                0 <= j < items.len() && (#[trigger] items[j]).0 == c && r.contains_key(n) && r[n]
                    == movement_entry(config, base, c, items[j].1)
            &&& !hit ==> r.contains_key(n) == start.contains_key(n) && (start.contains_key(n) ==> r[n] == start[n])
        }),
    decreases items.len(),
{
    if items.len() > 0 {
        let init = items.drop_last();
        assert forall|j: int|
            0 <= j < init.len() && is_active_combo((#[trigger] init[j]).0.1, active) && event_name(
                init[j].0.0,
            ) == n implies init[j].0 == c by {
            assert(init[j] == items[j]);
        }
        lemma_active_movement(config, base, active, start, init, n, c);
        assert forall|j: int| 0 <= j < init.len() implies #[trigger] init[j] == items[j] by {}
        assert forall|j: int| 0 <= j < init.len() implies #[trigger] items[j] == init[j] by {}
        assert(items[items.len() - 1] == items.last());
    }
}

/// Whether the combo `c` is one of the held modifiers `active`: it needs at
/// least one, and exactly those.
pub open spec fn needs_exactly(c: ComboView, active: Seq<Event>) -> bool {
    &&& 0 < c.1.len() == active.len()
    &&& forall|i: int| 0 <= i < c.1.len() ==> active.contains(#[trigger] c.1[i])
}

/// What a trigger does under the held modifiers is told by what is bound to the
/// combo of exactly those: its movement, else its command, else its keys. A
/// trigger of which only combos of other modifiers are bound is not told of,
/// unless a hint stands for it.
pub proof fn law_combos_of_the_held_modifiers_are_told(
    config: Config,
    active: Seq<Event>,
    stack: Seq<String>,
    c: ComboView,
)
    requires
        distinct_keys(config.bindings.remap.items()),
        distinct_keys(config.bindings.commands.items()),
        distinct_keys(config.bindings.movements.items()),
        needs_exactly(c, active),
        forall|x: ComboView| #[trigger]
            binds(config.bindings@, x) && needs_exactly(x, active) && event_name(x.0)
                == event_name(c.0) ==> x == c,
    ensures
        ({
            let told = active_combos(config, active, stack);
            let n = event_name(c.0);
            let b = config.bindings@;
            &&& b.movements.contains_key(c) ==> told.contains_key(n) && told[n].kind
                == BindingKind::Movement && told[n].action == seq![relative_name(b.movements[c])]
            &&& b.commands.contains_key(c) && !b.movements.contains_key(c) ==> told.contains_key(n)
                && told[n].kind == BindingKind::Command && told[n].action == views(b.commands[c])
            &&& b.remap.contains_key(c) && !b.commands.contains_key(c)
                && !b.movements.contains_key(c) ==> told.contains_key(n) && told[n].kind
                == BindingKind::Remap && told[n].action == key_names(b.remap[c])
            &&& !binds(b, c) && told.contains_key(n) ==> told[n].kind == BindingKind::Hint
            &&& told.contains_key(n) ==> told[n].silent is None && told[n].no_pause is None
            &&& binds(b, c) ==> told[n].label == label_of(b, c)
        }),
{
    let v = config@;
    let base = base_name(v, stack);
    let n = event_name(c.0);
    let b = config.bindings@;
    assert(v.bindings == b);
    let remaps = config.bindings.remap.items();
    let commands = config.bindings.commands.items();
    let movements = config.bindings.movements.items();
    let hints = config.bindings.hints_resolved.items();
    config.bindings.remap.lemma_items();
    config.bindings.commands.lemma_items();
    config.bindings.movements.lemma_items();
    assert forall|j: int|
        0 <= j < remaps.len() && is_active_combo((#[trigger] remaps[j]).0.1, active) && event_name(
            remaps[j].0.0,
        ) == n implies remaps[j].0 == c by {
        assert(binds(b, remaps[j].0));
        assert(needs_exactly(remaps[j].0, active));
    }
    assert forall|j: int|
        0 <= j < commands.len() && is_active_combo((#[trigger] commands[j]).0.1, active)
            && event_name(commands[j].0.0) == n implies commands[j].0 == c by {
        assert(binds(b, commands[j].0));
        assert(needs_exactly(commands[j].0, active));
    }
    assert forall|j: int|
        0 <= j < movements.len() && is_active_combo((#[trigger] movements[j]).0.1, active)
            && event_name(movements[j].0.0) == n implies movements[j].0 == c by {
        assert(binds(b, movements[j].0));
        assert(needs_exactly(movements[j].0, active));
    }
    assert(is_active_combo(c.1, active));
    lemma_active_remap(v, base, active, remaps, n, c);
    let first = active_remaps(v, base, active, remaps);
    lemma_active_command(v, base, active, first, commands, n, c);
    let second = active_commands(v, base, active, first, commands);
    lemma_active_movement(v, base, active, second, movements, n, c);
    let third = active_movements(v, base, active, second, movements);
    lemma_active_hints(v, base, active, third, hints, n);
    assert(b.remap.contains_key(c) ==> first.contains_key(n) && first[n] == without_flags(
        remap_entry(v, base, c, b.remap[c]),
    ));
    assert(!b.remap.contains_key(c) ==> !first.contains_key(n));
    assert(b.commands.contains_key(c) ==> second.contains_key(n) && second[n] == without_flags(
        command_entry(v, base, c, b.commands[c]),
    ));
    assert(b.movements.contains_key(c) ==> third.contains_key(n) && third[n] == movement_entry(
        v,
        base,
        c,
        b.movements[c],
    ));
}

proof fn lemma_active_hints(
    config: ConfigView,
    base: Seq<char>,
    active: Seq<Event>,
    start: Map<Seq<char>, EntryView>,
    items: Seq<(ComboView, (Seq<char>, bool))>,
    n: Seq<char>,
)
    ensures
        ({
            let r = active_hints(config, base, active, start, items);
            &&& start.contains_key(n) ==> r.contains_key(n) && r[n] == start[n]
            &&& !start.contains_key(n) && r.contains_key(n) ==> r[n].kind == BindingKind::Hint
                && r[n].silent is None && r[n].no_pause is None && r[n].action
                == Seq::<Seq<char>>::empty() && exists|j: int|
                0 <= j < items.len() && event_name((#[trigger] items[j]).0.0) == n && r[n].label
                    == Some(items[j].1.0)
        }),
    decreases items.len(),
{
    if items.len() > 0 {
        let init = items.drop_last();
        lemma_active_hints(config, base, active, start, init, n);
        assert(items[items.len() - 1] == items.last());
        assert forall|j: int| 0 <= j < init.len() implies #[trigger] init[j] == items[j] by {}
    }
}

/// A key is told to be sent where one of the held buttons sends it, and is
/// marked as the first such button marks it.
pub proof fn law_outputs_are_those_of_the_held_buttons(
    b: BindingsView,
    held: Seq<Event>,
    mods: Seq<Event>,
    chain_only: bool,
    key: Seq<char>,
)
    ensures
        outputs(b, held, mods, chain_only).contains_key(key) <==> exists|i: int|
            0 <= i < held.len() && sends(b, #[trigger] held[i], mods, chain_only, key),
        forall|i: int|
            #![trigger held[i]]
            0 <= i < held.len() && sends(b, held[i], mods, chain_only, key) && (forall|j: int|
                0 <= j < i ==> !sends(b, #[trigger] held[j], mods, chain_only, key)) ==> outputs(
                b,
                held,
                mods,
                chain_only,
            )[key] == flagged(b.silent, held[i], mods),
    decreases held.len(),
{
    if held.len() > 0 {
        let init = held.drop_last();
        let e = held.last();
        law_outputs_are_those_of_the_held_buttons(b, init, mods, chain_only, key);
        let before = outputs(b, init, mods, chain_only);
        let r = outputs(b, held, mods, chain_only);
        if let Resolution::Keys { keys, .. } = resolution(b, e, mods, chain_only) {
            lemma_with_outputs(before, keys, flagged(b.silent, e, mods), key);
        }
        assert forall|j: int| 0 <= j < init.len() implies #[trigger] init[j] == held[j] by {}
        assert forall|j: int| 0 <= j < init.len() implies #[trigger] held[j] == init[j] by {}
        assert(held[held.len() - 1] == e);
    }
}

/// Whether a button sends a key under the modifiers `mods`.
pub open spec fn sends(
    b: BindingsView,
    button: Event,
    mods: Seq<Event>,
    chain_only: bool,
    key: Seq<char>,
) -> bool {
    resolution(b, button, mods, chain_only) matches Resolution::Keys { keys, .. } && exists|k: int|
        0 <= k < keys.len() && key_name(#[trigger] keys[k]) == key
}

proof fn lemma_with_outputs(start: Map<Seq<char>, bool>, keys: Seq<Key>, silent: bool, key: Seq<char>)
    ensures
        with_outputs(start, keys, silent).contains_key(key) <==> start.contains_key(key) || exists|
            k: int,
        |
            0 <= k < keys.len() && key_name(#[trigger] keys[k]) == key,
        start.contains_key(key) ==> with_outputs(start, keys, silent)[key] == start[key],
        !start.contains_key(key) && with_outputs(start, keys, silent).contains_key(key)
            ==> with_outputs(start, keys, silent)[key] == silent,
    decreases keys.len(),
{
    if keys.len() > 0 {
        let init = keys.drop_last();
        lemma_with_outputs(start, init, silent, key);
        assert(keys[keys.len() - 1] == keys.last());
        assert forall|j: int| 0 <= j < init.len() implies #[trigger] init[j] == keys[j] by {}
        assert forall|j: int| 0 <= j < init.len() implies #[trigger] keys[j] == init[j] by {}
    }
}

/// Shortcuts are written as usual: meta, control, alt, shift, and then the
/// other keys by name, whichever side a modifier is on.
pub proof fn law_shortcuts_are_written_as_usual(other: Seq<char>, later: Seq<char>)
    requires
        other != "KEY_LEFTMETA"@ && other != "KEY_RIGHTMETA"@,
        other != "KEY_LEFTCTRL"@ && other != "KEY_RIGHTCTRL"@,
        other != "KEY_LEFTALT"@ && other != "KEY_RIGHTALT"@,
        other != "KEY_LEFTSHIFT"@ && other != "KEY_RIGHTSHIFT"@,
        later != "KEY_LEFTMETA"@ && later != "KEY_RIGHTMETA"@,
        later != "KEY_LEFTCTRL"@ && later != "KEY_RIGHTCTRL"@,
        later != "KEY_LEFTALT"@ && later != "KEY_RIGHTALT"@,
        later != "KEY_LEFTSHIFT"@ && later != "KEY_RIGHTSHIFT"@,
    ensures
        output_before("KEY_LEFTMETA"@, "KEY_LEFTCTRL"@),
        output_before("KEY_LEFTMETA"@, "KEY_RIGHTCTRL"@),
        output_before("KEY_RIGHTMETA"@, "KEY_LEFTCTRL"@),
        output_before("KEY_LEFTCTRL"@, "KEY_LEFTALT"@),
        output_before("KEY_LEFTCTRL"@, "KEY_RIGHTALT"@),
        output_before("KEY_RIGHTCTRL"@, "KEY_LEFTALT"@),
        output_before("KEY_LEFTALT"@, "KEY_LEFTSHIFT"@),
        output_before("KEY_LEFTALT"@, "KEY_RIGHTSHIFT"@),
        output_before("KEY_RIGHTALT"@, "KEY_LEFTSHIFT"@),
        output_before("KEY_LEFTSHIFT"@, other),
        output_before("KEY_RIGHTSHIFT"@, other),
        !output_before(other, "KEY_RIGHTSHIFT"@),
        output_before(other, later) <==> text_before(other, later),
{
    reveal_strlit("KEY_LEFTMETA");
    reveal_strlit("KEY_RIGHTMETA");
    reveal_strlit("KEY_LEFTCTRL");
    reveal_strlit("KEY_RIGHTCTRL");
    reveal_strlit("KEY_LEFTALT");
    reveal_strlit("KEY_RIGHTALT");
    reveal_strlit("KEY_LEFTSHIFT");
    reveal_strlit("KEY_RIGHTSHIFT");
    assert("KEY_LEFTMETA"@[8] != "KEY_LEFTCTRL"@[8]);
    assert("KEY_RIGHTALT"@[4] != "KEY_LEFTCTRL"@[4]);
    assert("KEY_RIGHTALT"@[4] != "KEY_LEFTMETA"@[4]);
    assert("KEY_RIGHTMETA"@[9] != "KEY_RIGHTCTRL"@[9]);
    assert("KEY_LEFTSHIFT"@[4] != "KEY_RIGHTCTRL"@[4]);
    assert("KEY_LEFTSHIFT"@[4] != "KEY_RIGHTMETA"@[4]);
}

/// A modifier is told to be available where it is not held yet and some binding
/// needs it together with all that are; it is marked where the application's
/// own bindings hold such a one. No other modifier is.
pub proof fn law_available_modifiers_unlock_something(
    config: ConfigView,
    active: Seq<Event>,
    custom: Seq<Event>,
    entry: (Seq<char>, bool),
)
    ensures
        available(config, active, custom).contains(entry) <==> exists|i: int|
            0 <= i < custom.len() && !active.contains(#[trigger] custom[i]) && event_name(custom[i])
                == entry.0 && leads_on(config.bindings, custom[i], active) && entry.1 == (
            config.override_bindings is Some && leads_on(
                config.override_bindings->0,
                custom[i],
                active,
            )),
    decreases custom.len(),
{
    lemma_leads_on(config.bindings, active);
    if config.override_bindings is Some {
        lemma_leads_on(config.override_bindings->0, active);
    }
    if custom.len() > 0 {
        let init = custom.drop_last();
        law_available_modifiers_unlock_something(config, active, init, entry);
        let before = available(config, active, init);
        let all = available(config, active, custom);
        assert(custom[custom.len() - 1] == custom.last());
        assert forall|j: int| 0 <= j < init.len() implies #[trigger] init[j] == custom[j] by {}
        assert forall|j: int| 0 <= j < init.len() implies #[trigger] custom[j] == init[j] by {}
        if all.len() > before.len() {
            assert(all[before.len() as int] == all.last());
            if before.contains(entry) {
                let k = choose|k: int| 0 <= k < before.len() && before[k] == entry;
                assert(all[k] == entry);
            }
            if all.contains(entry) && entry != all.last() {
                let k = choose|k: int| 0 <= k < all.len() && all[k] == entry;
                assert(before[k] == entry);
            }
        }
    }
}

/// Whether some binding of `b` needs the modifier `m` and everything that is
/// held.
pub open spec fn leads_on(b: BindingsView, m: Event, active: Seq<Event>) -> bool {
    exists|c: ComboView|
        #![trigger b.remap.contains_key(c)]
        #![trigger b.commands.contains_key(c)]
        #![trigger b.movements.contains_key(c)]
        (b.remap.contains_key(c) || b.commands.contains_key(c) || b.movements.contains_key(c))
            && c.1.contains(m) && (forall|i: int|
            0 <= i < active.len() ==> c.1.contains(#[trigger] active[i]))
}

proof fn lemma_leads_on(b: BindingsView, active: Seq<Event>)
    ensures
        forall|m: Event| #[trigger] leads_on(b, m, active) <==> unlocks(b, m, active),
{
    assert forall|m: Event| #[trigger] leads_on(b, m, active) <==> unlocks(b, m, active) by {
        if leads_on(b, m, active) {
            let c = choose|c: ComboView|
                #![trigger b.remap.contains_key(c)]
                #![trigger b.commands.contains_key(c)]
                #![trigger b.movements.contains_key(c)]
                (b.remap.contains_key(c) || b.commands.contains_key(c)
                    || b.movements.contains_key(c)) && c.1.contains(m) && (forall|i: int|
                    0 <= i < active.len() ==> c.1.contains(#[trigger] active[i]));
            assert(binds(b, c) && qualifies(m, c.1, active));
        }
        if unlocks(b, m, active) {
            let c = choose|c: ComboView| qualifies(m, c.1, active) && #[trigger] binds(b, c);
            assert(b.remap.contains_key(c) || b.commands.contains_key(c)
                || b.movements.contains_key(c));
        }
    }
}

/// Hold bindings need a held modifier unless the setting says otherwise; any
/// word but `true` says otherwise.
pub proof fn law_chains_are_the_rule(settings: Map<Seq<char>, Seq<char>>)
    ensures
        !settings.contains_key("CHAIN_ONLY"@) ==> is_chain_only(settings),
        settings.contains_key("CHAIN_ONLY"@) ==> (is_chain_only(settings)
            <==> settings["CHAIN_ONLY"@] == "true"@),
{
}

/// A binding is told to come from the configuration itself; in a merged one, to
/// come from the bottom of the stack unless the upper configuration brought it
/// along.
pub proof fn law_origins_are_told(
    config: ConfigView,
    stack: Seq<String>,
    c: ComboView,
    keys: Seq<Key>,
    run: Seq<String>,
)
    ensures
        ({
            let base = base_name(config, stack);
            &&& stack.len() > 0 ==> base == stack[0]@
            &&& stack.len() == 0 ==> base == config.name
            &&& config.override_bindings is None ==> remap_entry(config, base, c, keys).origin
                == config.name && command_entry(config, base, c, run).origin == config.name
            &&& config.override_bindings matches Some(o) ==> {
                &&& remap_entry(config, base, c, keys).origin == if o.remap.contains_key(c) {
                    config.name
                } else {
                    base
                }
                &&& command_entry(config, base, c, run).origin == if o.commands.contains_key(c) {
                    config.name
                } else {
                    base
                }
            }
        }),
{
}

proof fn lemma_remap_entry(
    config: ConfigView,
    base: Seq<char>,
    items: Seq<(ComboView, Seq<Key>)>,
    n: Seq<char>,
    c: ComboView,
)
    requires
        forall|j: int|
            0 <= j < items.len() && combo_name((#[trigger] items[j]).0.0, items[j].0.1) == n
                ==> items[j].0 == c,
    ensures
        ({
            let r = remap_entries(config, base, items);
            let hit = exists|j: int|
                0 <= j < items.len() && (#[trigger] items[j]).0 == c && combo_name(c.0, c.1) == n;
            &&& hit ==> exists|j: int|
                0 <= j < items.len() && (#[trigger] items[j]).0 == c && r.contains_key(n) && r[n]
                    == remap_entry(config, base, c, items[j].1)
            &&& !hit ==> r.contains_key(n) == false && (true)
        }),
    decreases items.len(),
{
    if items.len() > 0 {
        let init = items.drop_last();
        assert forall|j: int| 0 <= j < init.len() implies #[trigger] init[j] == items[j] by {}
        assert forall|j: int| 0 <= j < init.len() implies #[trigger] items[j] == init[j] by {}
        lemma_remap_entry(config, base, init, n, c);
        assert(items[items.len() - 1] == items.last());
    }
}

proof fn lemma_command_entry(
    config: ConfigView,
    base: Seq<char>,
    start: Map<Seq<char>, EntryView>,
    items: Seq<(ComboView, Seq<String>)>,
    n: Seq<char>,
    c: ComboView,
)
    requires
        forall|j: int|
            0 <= j < items.len() && combo_name((#[trigger] items[j]).0.0, items[j].0.1) == n
                ==> items[j].0 == c,
    ensures
        ({
            let r = command_entries(config, base, start, items);
            let hit = exists|j: int|
                0 <= j < items.len() && (#[trigger] items[j]).0 == c && combo_name(c.0, c.1) == n;
            &&& hit ==> exists|j: int|
                0 <= j < items.len() && (#[trigger] items[j]).0 == c && r.contains_key(n) && r[n]
                    == command_entry(config, base, c, items[j].1)
            &&& !hit ==> r.contains_key(n) == start.contains_key(n) && (start.contains_key(n) ==> r[n] == start[n])
        }),
    decreases items.len(),
{
    if items.len() > 0 {
        let init = items.drop_last();
        assert forall|j: int| 0 <= j < init.len() implies #[trigger] init[j] == items[j] by {}
        assert forall|j: int| 0 <= j < init.len() implies #[trigger] items[j] == init[j] by {}
        lemma_command_entry(config, base, start, init, n, c);
        assert(items[items.len() - 1] == items.last());
    }
}

proof fn lemma_relabelled(
    config: ConfigView,
    base: Seq<char>,
    start: Map<Seq<char>, EntryView>,
    items: Seq<(ComboView, (Seq<char>, bool))>,
    n: Seq<char>,
)
    ensures
        ({
            let r = relabelled(config, base, start, items);
            let hinted = exists|j: int|
                0 <= j < items.len() && (#[trigger] items[j]).0.1.len() == 0 && event_name(
                    items[j].0.0,
                ) == n;
            &&& start.contains_key(n) ==> r.contains_key(n) && r[n].kind == start[n].kind
                && r[n].action == start[n].action && r[n].silent == start[n].silent
                && r[n].no_pause == start[n].no_pause
            &&& !start.contains_key(n) && r.contains_key(n) ==> r[n].kind == BindingKind::Hint
                && r[n].action == Seq::<Seq<char>>::empty() && r[n].silent is None
                && r[n].no_pause is None
            &&& r.contains_key(n) <==> start.contains_key(n) || hinted
            &&& !hinted && start.contains_key(n) ==> r[n] == start[n]
            &&& hinted ==> exists|j: int|
                0 <= j < items.len() && (#[trigger] items[j]).0.1.len() == 0 && event_name(
                    items[j].0.0,
                ) == n && r[n].label == Some(items[j].1.0)
        }),
    decreases items.len(),
{
    if items.len() > 0 {
        let init = items.drop_last();
        lemma_relabelled(config, base, start, init, n);
        assert forall|j: int| 0 <= j < init.len() implies #[trigger] init[j] == items[j] by {}
        assert forall|j: int| 0 <= j < init.len() implies #[trigger] items[j] == init[j] by {}
        assert(items[items.len() - 1] == items.last());
    }
}

/// Every combo that runs a command or sends keys is told of under its name: a
/// command before keys, with what it runs or sends, and with its marks. A hint
/// changes no more than the label and the origin.
pub proof fn law_every_binding_is_told(config: Config, stack: Seq<String>, c: ComboView)
    requires
        distinct_keys(config.bindings.remap.items()),
        distinct_keys(config.bindings.commands.items()),
        forall|x: ComboView| #[trigger]
            binds(config.bindings@, x) && combo_name(x.0, x.1) == combo_name(c.0, c.1) ==> x == c,
    ensures
        ({
            let told = all_bindings(config, stack);
            let n = combo_name(c.0, c.1);
            let b = config.bindings@;
            let hints = config.bindings.hints_resolved.items();
            let hinted = exists|j: int|
                0 <= j < hints.len() && (#[trigger] hints[j]).0.1.len() == 0 && event_name(
                    hints[j].0.0,
                ) == n;
            &&& b.commands.contains_key(c) ==> told.contains_key(n) && told[n].kind
                == BindingKind::Command && told[n].action == views(b.commands[c])
                && told[n].no_pause == Some(b.no_pause.contains(c)) && told[n].silent is None
            &&& b.remap.contains_key(c) && !b.commands.contains_key(c) ==> told.contains_key(n)
                && told[n].kind == BindingKind::Remap && told[n].action == key_names(b.remap[c])
                && told[n].silent == Some(b.silent.contains(c)) && told[n].no_pause is None
            &&& !b.remap.contains_key(c) && !b.commands.contains_key(c) ==> (told.contains_key(n)
                <==> hinted) && (hinted ==> told[n].kind == BindingKind::Hint)
            &&& !hinted && (b.remap.contains_key(c) || b.commands.contains_key(c))
                ==> told[n].label == (if b.labels.contains_key(c) {
                Some(b.labels[c])
            } else {
                None
            })
            &&& hinted ==> exists|j: int|
                0 <= j < hints.len() && (#[trigger] hints[j]).0.1.len() == 0 && event_name(
                    hints[j].0.0,
                ) == n && told[n].label == Some(hints[j].1.0)
        }),
{
    let v = config@;
    let base = base_name(v, stack);
    let n = combo_name(c.0, c.1);
    let b = config.bindings@;
    assert(v.bindings == b);
    let remaps = config.bindings.remap.items();
    let commands = config.bindings.commands.items();
    config.bindings.remap.lemma_items();
    config.bindings.commands.lemma_items();
    assert forall|j: int|
        0 <= j < remaps.len() && combo_name((#[trigger] remaps[j]).0.0, remaps[j].0.1)
            == n implies remaps[j].0 == c by {
        assert(binds(b, remaps[j].0));
    }
    assert forall|j: int|
        0 <= j < commands.len() && combo_name((#[trigger] commands[j]).0.0, commands[j].0.1)
            == n implies commands[j].0 == c by {
        assert(binds(b, commands[j].0));
    }
    lemma_remap_entry(v, base, remaps, n, c);
    let first = remap_entries(v, base, remaps);
    lemma_command_entry(v, base, first, commands, n, c);
    let second = command_entries(v, base, first, commands);
    lemma_relabelled(v, base, second, config.bindings.hints_resolved.items(), n);
    assert(b.remap.contains_key(c) ==> first.contains_key(n) && first[n] == remap_entry(
        v,
        base,
        c,
        b.remap[c],
    ));
    assert(!b.remap.contains_key(c) ==> !first.contains_key(n));
    assert(b.commands.contains_key(c) ==> second.contains_key(n) && second[n] == command_entry(
        v,
        base,
        c,
        b.commands[c],
    ));
}

} // verus!
