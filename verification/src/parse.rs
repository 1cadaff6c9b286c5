//! From the sections of a configuration file to a [`Config`].

use crate::config::{
    all_of, default_gaming_mode, default_trigger, gaming_chain, no_bindings, Bindings, BindingsView,
    ComboView, Config, DeviceClass, DeviceDeclaration, DoubleclickTrigger, GamingModeConfig,
    GamingModeView, MappedModifiers, ModuleMetadata, TextTable, TrackpadConfig, TrackpadSideConfig,
};
use crate::event::{
    canonical, canonical_list, copy_list, event_of_name, has_event, key_of_name, parse_event_name,
    relative_of_name, Combo, Cursor, Event, Key, Relative, Scroll, KEY_LEFTALT, KEY_LEFTCTRL,
    KEY_LEFTMETA, KEY_LEFTSHIFT, KEY_RIGHTALT, KEY_RIGHTCTRL, KEY_RIGHTSHIFT,
};
use crate::desktop_defaults::{lemma_one_piece, lemma_pieces_add};
use crate::haptics::HapticChain;
use crate::hints::{nonempty, nonempty_pieces};
use crate::keyed::KeyedList;
use crate::order::views;
use crate::text::{
    copy_text, copy_texts, cut_last, lemma_cut_last, lowercase, lowercase_text, pieces, same_text, split_at_last,
    split_text, text_in, trimmed, trimmed_text,
};
use vstd::prelude::*;

verus! {

// ── Sections as written ──────────────────────────────────────────────────────

/// A line of the remap section: keys alone, or with attributes.
#[derive(Debug, Clone, PartialEq, Eq)]
pub enum RemapValue {
    Simple(Vec<Key>),
    WithAttrs {
        keys: Vec<Key>,
        no_pause: bool,
        while_gaming: bool,
        label: Option<String>,
        silent: bool,
    },
}

/// A line of the commands section: commands alone, or with attributes.
#[derive(Debug, Clone, PartialEq, Eq)]
pub enum CommandValue {
    Simple(Vec<String>),
    WithAttrs {
        run: Vec<String>,
        no_pause: bool,
        while_gaming: bool,
        label: Option<String>,
        silent: bool,
    },
}

/// One side of the trackpad section.
#[derive(Debug, Clone, PartialEq, Eq)]
pub struct RawTrackpadSide {
    pub mode: Option<String>,
    pub click_pressure: Option<i64>,
    /// The whole table, in TOML notation.
    pub table: String,
    /// Its `kde` table, in TOML notation.
    pub kde: Option<String>,
}

/// The gesture part of the trackpad section.
#[derive(Debug, Clone, PartialEq, Eq)]
pub struct RawGestures {
    /// The whole table, in TOML notation.
    pub table: String,
    /// Its `kde` table, in TOML notation.
    pub kde: Option<String>,
}

/// The trackpad section.
#[derive(Debug, Clone, PartialEq, Eq)]
pub struct RawTrackpadConfig {
    pub left: Option<RawTrackpadSide>,
    pub right: Option<RawTrackpadSide>,
    pub combined_gesture_device: Option<bool>,
    pub gestures: Option<RawGestures>,
}

impl Default for RawTrackpadConfig {
    fn default() -> (r: Self)
        ensures
            r.left is None,
            r.right is None,
            r.combined_gesture_device is None,
            r.gestures is None,
    {
        RawTrackpadConfig {
            left: None,
            right: None,
            combined_gesture_device: None,
            gestures: None,
        }
    }
}

/// The double-click trigger as written.
#[derive(Debug, Clone, PartialEq, Eq)]
pub struct RawDoubleclickTrigger {
    /// A key name, an alias, or `disabled`.
    pub key: String,
    /// Most milliseconds between the two presses; 400 where absent.
    pub ms: Option<u64>,
}

/// The gaming mode section.
#[derive(Debug, Clone, PartialEq, Eq)]
pub struct RawGamingModeConfig {
    pub trigger: Option<RawDoubleclickTrigger>,
    pub haptic_on: Option<HapticChain>,
    pub haptic_off: Option<HapticChain>,
    pub auto_detect_steam_games: Option<bool>,
}

impl Default for RawGamingModeConfig {
    fn default() -> (r: Self)
        ensures
            r.trigger is None,
            r.haptic_on is None,
            r.haptic_off is None,
            r.auto_detect_steam_games is None,
    {
        RawGamingModeConfig {
            trigger: None,
            haptic_on: None,
            haptic_off: None,
            auto_detect_steam_games: None,
        }
    }
}

/// The device section.
#[derive(Debug, PartialEq, Eq)]
pub struct RawDeviceDeclaration {
    pub class: String,
    pub names: Vec<String>,
    /// Readable names for the device's buttons, such as `L1` for `BTN_TL`.
    pub aliases: TextTable,
}

/// The module section.
#[derive(Debug, Clone, PartialEq, Eq)]
pub struct RawModuleMetadata {
    pub requires_compositor: Option<String>,
    pub match_window_class: Option<Vec<String>>,
    pub exclusive_group: Option<String>,
    pub layout: u16,
}

impl Default for RawModuleMetadata {
    fn default() -> (r: Self)
        ensures
            r.requires_compositor is None,
            r.match_window_class is None,
            r.exclusive_group is None,
            r.layout == 0,
    {
        RawModuleMetadata {
            requires_compositor: None,
            match_window_class: None,
            exclusive_group: None,
            layout: 0,
        }
    }
}

/// The modules that a file asks for by name.
#[derive(Debug, Clone, PartialEq, Eq)]
pub struct RawModuleIncludes {
    pub names: Vec<String>,
}

impl Default for RawModuleIncludes {
    fn default() -> (r: Self)
        ensures
            r.names@ == Seq::<String>::empty(),
    {
        RawModuleIncludes { names: Vec::new() }
    }
}

/// A configuration file, section by section.
#[derive(Debug, PartialEq, Eq)]
pub struct RawConfig {
    pub remap: Vec<(String, RemapValue)>,
    pub commands: Vec<(String, CommandValue)>,
    pub movements: Vec<(String, String)>,
    pub hints: TextTable,
    pub settings: TextTable,
    pub trackpad: RawTrackpadConfig,
    pub gaming_mode: Option<RawGamingModeConfig>,
    pub device: Option<RawDeviceDeclaration>,
    pub module: RawModuleMetadata,
    pub modules: RawModuleIncludes,
}

// ── Aliases and names ────────────────────────────────────────────────────────

/// What a name stands for: its alias, or itself.
pub open spec fn unaliased(aliases: Map<Seq<char>, Seq<char>>, name: Seq<char>) -> Seq<char> {
    if aliases.contains_key(name) {
        aliases[name]
    } else {
        name
    }
}

/// What a name stands for: its alias, or itself.
pub fn resolve_alias(name: &str, aliases: &TextTable) -> (r: String)
    ensures
        r@ == unaliased(aliases@, name@),
{
    let key: String = name.to_owned();
    match aliases.get(&key) {
        Some(v) => v.clone(),
        None => key,
    }
}

/// The events of a list of names, leaving out those that are not known.
pub open spec fn known_events(
    aliases: Map<Seq<char>, Seq<char>>,
    names: Seq<Seq<char>>,
) -> Seq<Event>
    decreases names.len(),
{
    if names.len() == 0 {
        Seq::empty()
    } else {
        let init = known_events(aliases, names.drop_last());
        match event_of_name(unaliased(aliases, names.last())) {
            Some(e) => init.push(e),
            None => init,
        }
    }
}

/// The events of a list of names, where all of them are known.
pub open spec fn all_events(
    aliases: Map<Seq<char>, Seq<char>>,
    names: Seq<Seq<char>>,
) -> Option<Seq<Event>>
    decreases names.len(),
{
    if names.len() == 0 {
        Some(Seq::empty())
    } else {
        match (
            all_events(aliases, names.drop_last()),
            event_of_name(unaliased(aliases, names.last())),
        ) {
            (Some(init), Some(e)) => Some(init.push(e)),
            _ => None,
        }
    }
}

proof fn lemma_all_events_none(
    aliases: Map<Seq<char>, Seq<char>>,
    names: Seq<Seq<char>>,
    i: int,
)
    requires
        0 <= i <= names.len(),
        all_events(aliases, names.take(i)) is None,
    ensures
        all_events(aliases, names) is None,
    decreases names.len() - i,
{
    if i < names.len() {
        assert(names.take(i + 1).drop_last() =~= names.take(i));
        lemma_all_events_none(aliases, names, i + 1);
    } else {
        assert(names.take(i) =~= names);
    }
}

/// The modifiers that the setting `parameter` lists, separated by `-`.
pub open spec fn setting_modifiers(
    settings: Map<Seq<char>, Seq<char>>,
    parameter: Seq<char>,
    aliases: Map<Seq<char>, Seq<char>>,
) -> Seq<Event> {
    if settings.contains_key(parameter) {
        known_events(aliases, nonempty(pieces(settings[parameter], '-')))
    } else {
        Seq::empty()
    }
}

/// The modifiers that the setting `parameter` lists. Empty parts are skipped:
/// an empty setting lists none.
pub fn parse_modifiers(settings: &TextTable, parameter: &str, aliases: &TextTable) -> (r: Vec<
    Event,
>)
    ensures
        r@ == setting_modifiers(settings@, parameter@, aliases@),
{
    let mut r: Vec<Event> = Vec::new();
    match settings.get(&parameter.to_owned()) {
        Some(list) => {
            let names: Vec<String> = nonempty_pieces(list.as_str(), '-');
            let mut i: usize = 0;
            assert(views(names@).take(0) =~= Seq::<Seq<char>>::empty());
            while i < names.len()
                invariant
                    i <= names@.len(),
                    r@ == known_events(aliases@, views(names@).take(i as int)),
                decreases names@.len() - i,
            {
                if let Some(e) = parse_event_name(
                    resolve_alias(names[i].as_str(), aliases).as_str(),
                ) {
                    r.push(e);
                }
                i = i + 1;
                proof {
                    let t = views(names@).take(i as int);
                    assert(t.drop_last() =~= views(names@).take(i - 1));
                    assert(t.last() == names@[i - 1]@);
                }
            }
            assert(views(names@).take(i as int) =~= views(names@));
            r
        },
        None => r,
    }
}

// ── Binding inputs ───────────────────────────────────────────────────────────

/// The members of `list` that `known` lacks, in their order.
pub open spec fn missing_from(list: Seq<Event>, known: Seq<Event>) -> Seq<Event>
    decreases list.len(),
{
    if list.len() == 0 {
        Seq::empty()
    } else if known.contains(list.last()) {
        missing_from(list.drop_last(), known)
    } else {
        missing_from(list.drop_last(), known).push(list.last())
    }
}

/// What the left side of a binding says.
#[verifier::ext_equal]
pub struct InputView {
    /// The trigger; none where the line is no binding.
    pub trigger: Option<Event>,
    /// What has to be held.
    pub held: Seq<Event>,
    /// The custom modifiers that the line brings along.
    pub registered: Seq<Event>,
}

/// What the left side `input` of a binding says: the part behind the last `-`
/// is the trigger, the parts before it are modifiers. A leading `-` asks for
/// the hold marker. With an unknown modifier the line is no binding.
pub open spec fn binding_input(
    input: Seq<char>,
    default: Seq<Event>,
    aliases: Map<Seq<char>, Seq<char>>,
) -> InputView {
    match cut_last(input, '-') {
        Some((mods, trigger)) => {
            let parts = pieces(mods, '-');
            match all_events(aliases, nonempty(parts)) {
                None => InputView {
                    trigger: None,
                    held: Seq::empty(),
                    registered: Seq::empty(),
                },
                Some(events) => {
                    let modifiers = canonical(events);
                    InputView {
                        trigger: event_of_name(unaliased(aliases, trigger)),
                        held: if parts[0].len() == 0 {
                            modifiers.push(Event::Hold)
                        } else {
                            modifiers
                        },
                        registered: missing_from(modifiers, default),
                    }
                },
            }
        },
        None => InputView {
            trigger: event_of_name(unaliased(aliases, input)),
            held: Seq::empty(),
            registered: Seq::empty(),
        },
    }
}

/// Read the left side of a binding. Custom modifiers are added to
/// `mapped_modifiers`.
pub fn parse_binding_input(
    input: &str,
    mapped_modifiers: &mut MappedModifiers,
    aliases: &TextTable,
) -> (r: (Option<Event>, Vec<Event>))
    ensures
        ({
            let v = binding_input(input@, old(mapped_modifiers).default@, aliases@);
            &&& r.0 == v.trigger
            &&& r.1@ == v.held
            &&& final(mapped_modifiers).custom@ == old(mapped_modifiers).custom@ + v.registered
            &&& *final(mapped_modifiers) == (MappedModifiers {
                custom: final(mapped_modifiers).custom,
                ..*old(mapped_modifiers)
            })
        }),
{
    let ghost custom0 = mapped_modifiers.custom@;
    assert(custom0 + Seq::<Event>::empty() =~= custom0);
    match split_at_last(input, '-') {
        Some((mods, trigger)) => {
            let parts: Vec<String> = split_text(mods.as_str(), '-');
            let names: Vec<String> = nonempty_pieces(mods.as_str(), '-');
            let mut events: Vec<Event> = Vec::new();
            let mut i: usize = 0;
            assert(views(names@).take(0) =~= Seq::<Seq<char>>::empty());
            while i < names.len()
                invariant
                    i <= names@.len(),
                    *mapped_modifiers == *old(mapped_modifiers),
                    views(names@) == nonempty(pieces(mods@, '-')),
                    cut_last(input@, '-') == Some((mods@, trigger@)),
                    all_events(aliases@, views(names@).take(i as int)) == Some(events@),
                    custom0 == old(mapped_modifiers).custom@,
                    custom0 + Seq::<Event>::empty() == custom0,
                decreases names@.len() - i,
            {
                proof {
                    let t = views(names@).take(i + 1);
                    assert(t.drop_last() =~= views(names@).take(i as int));
                    assert(t.last() == names@[i as int]@);
                }
                match parse_event_name(resolve_alias(names[i].as_str(), aliases).as_str()) {
                    Some(e) => {
                        events.push(e);
                    },
                    None => {
                        proof {
                            lemma_all_events_none(aliases@, views(names@), i + 1);
                        }
                        let none: Vec<Event> = Vec::new();
                        assert(none@ =~= Seq::<Event>::empty());
                        return (None, none);
                    },
                }
                i = i + 1;
            }
            assert(views(names@).take(i as int) =~= views(names@));
            let mut held: Vec<Event> = canonical_list(&events);
            let ghost modifiers = held@;
            let mut j: usize = 0;
            assert(modifiers.take(0) =~= Seq::<Event>::empty());
            while j < held.len()
                invariant
                    j <= held@.len(),
                    held@ == modifiers,
                    custom0 == old(mapped_modifiers).custom@,
                    *mapped_modifiers == (MappedModifiers {
                        custom: mapped_modifiers.custom,
                        ..*old(mapped_modifiers)
                    }),
                    mapped_modifiers.custom@ == custom0 + missing_from(
                        modifiers.take(j as int),
                        old(mapped_modifiers).default@,
                    ),
                decreases held@.len() - j,
            {
                let ghost had = mapped_modifiers.custom@;
                if !has_event(&mapped_modifiers.default, held[j]) {
                    mapped_modifiers.custom.push(held[j]);
                }
                j = j + 1;
                proof {
                    let t = modifiers.take(j as int);
                    assert(t.drop_last() =~= modifiers.take(j - 1));
                    assert(t.last() == modifiers[j - 1]);
                    let m = missing_from(modifiers.take(j - 1), old(mapped_modifiers).default@);
                    assert(custom0 + m.push(modifiers[j - 1]) =~= (custom0 + m).push(
                        modifiers[j - 1],
                    ));
                }
            }
            assert(modifiers.take(j as int) =~= modifiers);
            assert(views(parts@)[0] == parts@[0]@);
            if parts[0].as_str().is_empty() {
                held.push(Event::Hold);
            }
            (parse_event_name(resolve_alias(trigger.as_str(), aliases).as_str()), held)
        },
        None => {
            let none: Vec<Event> = Vec::new();
            assert(none@ =~= Seq::<Event>::empty());
            (parse_event_name(resolve_alias(input, aliases).as_str()), none)
        },
    }
}

// ── Sections ─────────────────────────────────────────────────────────────────

/// The attributes of a binding.
#[verifier::ext_equal]
pub struct Attributes {
    pub no_pause: bool,
    pub while_gaming: bool,
    pub label: Option<Seq<char>>,
    pub silent: bool,
}

/// The attributes of a line without any.
pub open spec fn plain_attributes() -> Attributes {
    Attributes { no_pause: false, while_gaming: false, label: None, silent: false }
}

/// The keys of a remap line.
pub open spec fn remap_keys(v: RemapValue) -> Seq<Key> {
    match v {
        RemapValue::Simple(keys) => keys@,
        RemapValue::WithAttrs { keys, .. } => keys@,
    }
}

/// The attributes of a remap line.
pub open spec fn remap_attributes(v: RemapValue) -> Attributes {
    match v {
        RemapValue::Simple(_) => plain_attributes(),
        RemapValue::WithAttrs { no_pause, while_gaming, label, silent, .. } => Attributes {
            no_pause,
            while_gaming,
            label: text_in(label),
            silent,
        },
    }
}

/// The commands of a command line.
pub open spec fn command_run(v: CommandValue) -> Seq<String> {
    match v {
        CommandValue::Simple(run) => run@,
        CommandValue::WithAttrs { run, .. } => run@,
    }
}

/// The attributes of a command line.
pub open spec fn command_attributes(v: CommandValue) -> Attributes {
    match v {
        CommandValue::Simple(_) => plain_attributes(),
        CommandValue::WithAttrs { no_pause, while_gaming, label, silent, .. } => Attributes {
            no_pause,
            while_gaming,
            label: text_in(label),
            silent,
        },
    }
}

/// `b` with the attributes `a` on the combo `c`.
pub open spec fn with_attributes(b: BindingsView, c: ComboView, a: Attributes) -> BindingsView {
    BindingsView {
        no_pause: if a.no_pause {
            b.no_pause.insert(c)
        } else {
            b.no_pause
        },
        while_gaming: if a.while_gaming {
            b.while_gaming.insert(c)
        } else {
            b.while_gaming
        },
        labels: match a.label {
            Some(l) => b.labels.insert(c, l),
            None => b.labels,
        },
        silent: if a.silent {
            b.silent.insert(c)
        } else {
            b.silent
        },
        ..b
    }
}

/// What has been read of a file so far.
#[verifier::ext_equal]
pub struct Reading {
    pub bindings: BindingsView,
    pub custom: Seq<Event>,
}

/// What has been read after the lines `lines` of the remap section.
pub open spec fn read_remaps(
    start: Reading,
    default: Seq<Event>,
    aliases: Map<Seq<char>, Seq<char>>,
    lines: Seq<(String, RemapValue)>,
) -> Reading
    decreases lines.len(),
{
    if lines.len() == 0 {
        start
    } else {
        let before = read_remaps(start, default, aliases, lines.drop_last());
        let input = binding_input(lines.last().0@, default, aliases);
        Reading {
            custom: before.custom + input.registered,
            bindings: match input.trigger {
                None => before.bindings,
                Some(t) => {
                    let flagged = with_attributes(
                        before.bindings,
                        (t, input.held),
                        remap_attributes(lines.last().1),
                    );
                    BindingsView {
                        remap: flagged.remap.insert((t, input.held), remap_keys(lines.last().1)),
                        ..flagged
                    }
                },
            },
        }
    }
}

/// What has been read after the lines `lines` of the commands section.
pub open spec fn read_commands(
    start: Reading,
    default: Seq<Event>,
    aliases: Map<Seq<char>, Seq<char>>,
    lines: Seq<(String, CommandValue)>,
) -> Reading
    decreases lines.len(),
{
    if lines.len() == 0 {
        start
    } else {
        let before = read_commands(start, default, aliases, lines.drop_last());
        let input = binding_input(lines.last().0@, default, aliases);
        Reading {
            custom: before.custom + input.registered,
            bindings: match input.trigger {
                None => before.bindings,
                Some(t) => {
                    let flagged = with_attributes(
                        before.bindings,
                        (t, input.held),
                        command_attributes(lines.last().1),
                    );
                    BindingsView {
                        commands: flagged.commands.insert(
                            (t, input.held),
                            command_run(lines.last().1),
                        ),
                        ..flagged
                    }
                },
            },
        }
    }
}

/// What has been read after the lines `lines` of the movements section.
pub open spec fn read_movements(
    start: Reading,
    default: Seq<Event>,
    aliases: Map<Seq<char>, Seq<char>>,
    lines: Seq<(String, String)>,
) -> Reading
    decreases lines.len(),
{
    if lines.len() == 0 {
        start
    } else {
        let before = read_movements(start, default, aliases, lines.drop_last());
        let input = binding_input(lines.last().0@, default, aliases);
        Reading {
            custom: before.custom + input.registered,
            bindings: match input.trigger {
                None => before.bindings,
                Some(t) => BindingsView {
                    movements: before.bindings.movements.insert(
                        (t, input.held),
                        relative_of_name(lines.last().1@)->0,
                    ),
                    ..before.bindings
                },
            },
        }
    }
}

/// Whether every line of the movements section names a movement.
pub open spec fn movements_valid(lines: Seq<(String, String)>) -> bool {
    forall|i: int|
        0 <= i < lines.len() ==> relative_of_name((#[trigger] lines[i]).1@) is Some
}

/// The modifiers that every configuration has.
pub open spec fn default_modifiers() -> Seq<Event> {
    seq![
        Event::Key(Key(42)),
        Event::Key(Key(29)),
        Event::Key(Key(56)),
        Event::Key(Key(54)),
        Event::Key(Key(97)),
        Event::Key(Key(100)),
        Event::Key(Key(125)),
    ]
}

/// What a file says of bindings and modifiers.
pub open spec fn read_file(
    raw: RawConfig,
    aliases: Map<Seq<char>, Seq<char>>,
) -> Reading {
    let default = default_modifiers();
    let start = Reading {
        bindings: no_bindings(),
        custom: setting_modifiers(raw.settings@, "CUSTOM_MODIFIERS"@, aliases)
            + setting_modifiers(raw.settings@, "LSTICK_ACTIVATION_MODIFIERS"@, aliases)
            + setting_modifiers(raw.settings@, "RSTICK_ACTIVATION_MODIFIERS"@, aliases),
    };
    let done = read_movements(
        read_commands(
            read_remaps(start, default, aliases, raw.remap@),
            default,
            aliases,
            raw.commands@,
        ),
        default,
        aliases,
        raw.movements@,
    );
    Reading {
        bindings: BindingsView { hints: raw.hints@, ..done.bindings },
        custom: canonical(done.custom),
    }
}

/// Whether every line of the movements section names a movement.
pub fn movements_are_valid(lines: &Vec<(String, String)>) -> (r: bool)
    ensures
        r == movements_valid(lines@),
{
    let mut i: usize = 0;
    while i < lines.len()
        invariant
            i <= lines@.len(),
            forall|j: int|
                0 <= j < i ==> relative_of_name((#[trigger] lines@[j]).1@) is Some,
        decreases lines@.len() - i,
    {
        if Relative::from_name(lines[i].1.as_str()).is_none() {
            return false;
        }
        i = i + 1;
    }
    true
}

fn standard_modifiers() -> (r: Vec<Event>)
    ensures
        r@ == default_modifiers(),
{
    let mut r: Vec<Event> = Vec::new();
    r.push(Event::Key(Key(KEY_LEFTSHIFT)));
    r.push(Event::Key(Key(KEY_LEFTCTRL)));
    r.push(Event::Key(Key(KEY_LEFTALT)));
    r.push(Event::Key(Key(KEY_RIGHTSHIFT)));
    r.push(Event::Key(Key(KEY_RIGHTCTRL)));
    r.push(Event::Key(Key(KEY_RIGHTALT)));
    r.push(Event::Key(Key(KEY_LEFTMETA)));
    assert(r@ =~= default_modifiers());
    r
}

fn append_events(list: &mut Vec<Event>, more: Vec<Event>)
    ensures
        final(list)@ == old(list)@ + more@,
{
    let mut i: usize = 0;
    assert(list@ + more@.take(0) =~= list@);
    while i < more.len()
        invariant
            i <= more@.len(),
            list@ == old(list)@ + more@.take(i as int),
        decreases more@.len() - i,
    {
        list.push(more[i]);
        i = i + 1;
        assert(old(list)@ + more@.take(i as int) =~= (old(list)@ + more@.take(i - 1)).push(
            more@[i - 1],
        ));
    }
    assert(more@.take(i as int) =~= more@);
}

fn set_attributes(
    b: &mut Bindings,
    c: &Combo,
    no_pause: bool,
    while_gaming: bool,
    label: &Option<String>,
    silent: bool,
)
    ensures
        final(b)@ == with_attributes(
            old(b)@,
            c@,
            (Attributes { no_pause, while_gaming, label: text_in(*label), silent }),
        ),
{
    if no_pause {
        b.no_pause.insert(Combo::of(c.trigger, &c.held), ());
    }
    if while_gaming {
        b.while_gaming.insert(Combo::of(c.trigger, &c.held), ());
    }
    if let Some(l) = label {
        b.labels.insert(Combo::of(c.trigger, &c.held), l.clone());
    }
    if silent {
        b.silent.insert(Combo::of(c.trigger, &c.held), ());
    }
    proof {
        let want = with_attributes(
            old(b)@,
            c@,
            Attributes { no_pause, while_gaming, label: text_in(*label), silent },
        );
        assert(b@.no_pause =~= want.no_pause);
        assert(b@.while_gaming =~= want.while_gaming);
        assert(b@.silent =~= want.silent);
    }
}

fn parse_remaps(
    lines: &Vec<(String, RemapValue)>,
    bindings: &mut Bindings,
    mapped: &mut MappedModifiers,
    aliases: &TextTable,
)
    ensures
        ({
            let start = Reading { bindings: old(bindings)@, custom: old(mapped).custom@ };
            let done = read_remaps(start, old(mapped).default@, aliases@, lines@);
            &&& final(bindings)@ == done.bindings
            &&& final(mapped).custom@ == done.custom
            &&& *final(mapped) == (MappedModifiers { custom: final(mapped).custom, ..*old(mapped) })
        }),
{
    let ghost start = Reading { bindings: bindings@, custom: mapped.custom@ };
    let ghost default = mapped.default@;
    let mut i: usize = 0;
    assert(lines@.take(0) =~= Seq::<(String, RemapValue)>::empty());
    while i < lines.len()
        invariant
            i <= lines@.len(),
            default == old(mapped).default@,
            start == (Reading { bindings: old(bindings)@, custom: old(mapped).custom@ }),
            *mapped == (MappedModifiers { custom: mapped.custom, ..*old(mapped) }),
            bindings@ == read_remaps(start, default, aliases@, lines@.take(i as int)).bindings,
            mapped.custom@ == read_remaps(start, default, aliases@, lines@.take(i as int)).custom,
        decreases lines@.len() - i,
    {
        let (trigger, held): (Option<Event>, Vec<Event>) = parse_binding_input(
            lines[i].0.as_str(),
            mapped,
            aliases,
        );
        if let Some(t) = trigger {
            let c = Combo::new(t, held);
            match &lines[i].1 {
                RemapValue::Simple(keys) => {
                    set_attributes(bindings, &c, false, false, &None, false);
                    bindings.remap.insert(c, copy_list(keys));
                },
                RemapValue::WithAttrs { keys, no_pause, while_gaming, label, silent } => {
                    set_attributes(bindings, &c, *no_pause, *while_gaming, label, *silent);
                    bindings.remap.insert(c, copy_list(keys));
                },
            }
        }
        i = i + 1;
        proof {
            let t = lines@.take(i as int);
            assert(t.drop_last() =~= lines@.take(i - 1));
            assert(t.last() == lines@[i - 1]);
        }
    }
    assert(lines@.take(i as int) =~= lines@);
}

fn parse_commands(
    lines: &Vec<(String, CommandValue)>,
    bindings: &mut Bindings,
    mapped: &mut MappedModifiers,
    aliases: &TextTable,
)
    ensures
        ({
            let start = Reading { bindings: old(bindings)@, custom: old(mapped).custom@ };
            let done = read_commands(start, old(mapped).default@, aliases@, lines@);
            &&& final(bindings)@ == done.bindings
            &&& final(mapped).custom@ == done.custom
            &&& *final(mapped) == (MappedModifiers { custom: final(mapped).custom, ..*old(mapped) })
        }),
{
    let ghost start = Reading { bindings: bindings@, custom: mapped.custom@ };
    let ghost default = mapped.default@;
    let mut i: usize = 0;
    assert(lines@.take(0) =~= Seq::<(String, CommandValue)>::empty());
    while i < lines.len()
        invariant
            i <= lines@.len(),
            default == old(mapped).default@,
            start == (Reading { bindings: old(bindings)@, custom: old(mapped).custom@ }),
            *mapped == (MappedModifiers { custom: mapped.custom, ..*old(mapped) }),
            bindings@ == read_commands(start, default, aliases@, lines@.take(i as int)).bindings,
            mapped.custom@ == read_commands(
                start,
                default,
                aliases@,
                lines@.take(i as int),
            ).custom,
        decreases lines@.len() - i,
    {
        let (trigger, held): (Option<Event>, Vec<Event>) = parse_binding_input(
            lines[i].0.as_str(),
            mapped,
            aliases,
        );
        if let Some(t) = trigger {
            let c = Combo::new(t, held);
            match &lines[i].1 {
                CommandValue::Simple(run) => {
                    set_attributes(bindings, &c, false, false, &None, false);
                    bindings.commands.insert(c, copy_texts(run));
                },
                CommandValue::WithAttrs { run, no_pause, while_gaming, label, silent } => {
                    set_attributes(bindings, &c, *no_pause, *while_gaming, label, *silent);
                    bindings.commands.insert(c, copy_texts(run));
                },
            }
        }
        i = i + 1;
        proof {
            let t = lines@.take(i as int);
            assert(t.drop_last() =~= lines@.take(i - 1));
            assert(t.last() == lines@[i - 1]);
        }
    }
    assert(lines@.take(i as int) =~= lines@);
}

fn parse_movements(
    lines: &Vec<(String, String)>,
    bindings: &mut Bindings,
    mapped: &mut MappedModifiers,
    aliases: &TextTable,
)
    requires
        movements_valid(lines@),
    ensures
        ({
            let start = Reading { bindings: old(bindings)@, custom: old(mapped).custom@ };
            let done = read_movements(start, old(mapped).default@, aliases@, lines@);
            &&& final(bindings)@ == done.bindings
            &&& final(mapped).custom@ == done.custom
            &&& *final(mapped) == (MappedModifiers { custom: final(mapped).custom, ..*old(mapped) })
        }),
{
    let ghost start = Reading { bindings: bindings@, custom: mapped.custom@ };
    let ghost default = mapped.default@;
    let mut i: usize = 0;
    assert(lines@.take(0) =~= Seq::<(String, String)>::empty());
    while i < lines.len()
        invariant
            i <= lines@.len(),
            movements_valid(lines@),
            default == old(mapped).default@,
            start == (Reading { bindings: old(bindings)@, custom: old(mapped).custom@ }),
            *mapped == (MappedModifiers { custom: mapped.custom, ..*old(mapped) }),
            bindings@ == read_movements(start, default, aliases@, lines@.take(i as int)).bindings,
            mapped.custom@ == read_movements(
                start,
                default,
                aliases@,
                lines@.take(i as int),
            ).custom,
        decreases lines@.len() - i,
    {
        let (trigger, held): (Option<Event>, Vec<Event>) = parse_binding_input(
            lines[i].0.as_str(),
            mapped,
            aliases,
        );
        proof {
            assert(relative_of_name(lines@[i as int].1@) is Some);
        }
        if let Some(t) = trigger {
            if let Some(m) = Relative::from_name(lines[i].1.as_str()) {
                bindings.movements.insert(Combo::new(t, held), m);
            }
        }
        i = i + 1;
        proof {
            let t = lines@.take(i as int);
            assert(t.drop_last() =~= lines@.take(i - 1));
            assert(t.last() == lines@[i - 1]);
        }
    }
    assert(lines@.take(i as int) =~= lines@);
}

/// Read bindings, settings and modifiers.
pub fn parse_raw_config(raw_config: &RawConfig, aliases: &TextTable) -> (r: (
    Bindings,
    TextTable,
    MappedModifiers,
))
    requires
        movements_valid(raw_config.movements@),
    ensures
        r.0@ == read_file(*raw_config, aliases@).bindings,
        r.1@ == raw_config.settings@,
        r.2.default@ == default_modifiers(),
        r.2.custom@ == read_file(*raw_config, aliases@).custom,
        r.2.all@ == canonical(default_modifiers() + r.2.custom@),
{
    let mut bindings = Bindings::default();
    let mut mapped = MappedModifiers {
        default: standard_modifiers(),
        custom: Vec::new(),
        all: Vec::new(),
    };
    let settings = &raw_config.settings;
    append_events(&mut mapped.custom, parse_modifiers(settings, "CUSTOM_MODIFIERS", aliases));
    append_events(
        &mut mapped.custom,
        parse_modifiers(settings, "LSTICK_ACTIVATION_MODIFIERS", aliases),
    );
    append_events(
        &mut mapped.custom,
        parse_modifiers(settings, "RSTICK_ACTIVATION_MODIFIERS", aliases),
    );
    proof {
        let a = setting_modifiers(settings@, "CUSTOM_MODIFIERS"@, aliases@);
        assert(Seq::<Event>::empty() + a =~= a);
    }
    parse_remaps(&raw_config.remap, &mut bindings, &mut mapped, aliases);
    parse_commands(&raw_config.commands, &mut bindings, &mut mapped, aliases);
    parse_movements(&raw_config.movements, &mut bindings, &mut mapped, aliases);
    bindings.hints = raw_config.hints.clone();
    mapped.custom = canonical_list(&mapped.custom);
    mapped.all = all_of(&mapped.default, &mapped.custom);
    (bindings, settings.clone(), mapped)
}

// ── Gaming mode ──────────────────────────────────────────────────────────────

/// The gaming mode of a section: what is absent is as in the default.
pub open spec fn gaming_mode_of(
    raw: Option<RawGamingModeConfig>,
    aliases: Map<Seq<char>, Seq<char>>,
) -> GamingModeView {
    match raw {
        None => default_gaming_mode(),
        Some(r) => GamingModeView {
            trigger: match r.trigger {
                None => Some(default_trigger()),
                Some(t) => if t.key@ == "disabled"@ {
                    None
                } else {
                    match key_of_name(unaliased(aliases, t.key@)) {
                        Some(key) => Some(
                            DoubleclickTrigger {
                                key,
                                ms: match t.ms {
                                    Some(ms) => ms,
                                    None => 400u64,
                                },
                            },
                        ),
                        None => None,
                    }
                },
            },
            haptic_on: match r.haptic_on {
                Some(c) => c@,
                None => gaming_chain(),
            },
            haptic_off: match r.haptic_off {
                Some(c) => c@,
                None => gaming_chain(),
            },
            auto_detect_steam_games: match r.auto_detect_steam_games {
                Some(b) => b,
                None => true,
            },
        },
    }
}

impl GamingModeConfig {
    /// The gaming mode of a section. A trigger that names no key is switched
    /// off.
    pub fn from_raw(raw: &Option<RawGamingModeConfig>, aliases: &TextTable) -> (r: Self)
        ensures
            r@ == gaming_mode_of(*raw, aliases@),
    {
        let mut r = GamingModeConfig::default();
        if let Some(raw) = raw {
            if let Some(t) = &raw.trigger {
                r.trigger = if same_text(t.key.as_str(), "disabled") {
                    None
                } else {
                    match Key::from_name(resolve_alias(t.key.as_str(), aliases).as_str()) {
                        Some(key) => Some(
                            DoubleclickTrigger {
                                key,
                                ms: match t.ms {
                                    Some(ms) => ms,
                                    None => 400,
                                },
                            },
                        ),
                        None => None,
                    }
                };
            }
            if let Some(c) = &raw.haptic_on {
                r.haptic_on = c.copy();
            }
            if let Some(c) = &raw.haptic_off {
                r.haptic_off = c.copy();
            }
            if let Some(b) = raw.auto_detect_steam_games {
                r.auto_detect_steam_games = b;
            }
        }
        r
    }
}

// ── Trackpads ────────────────────────────────────────────────────────────────

/// Whether `t` is what the trackpad side `raw` says: the mode in lower case
/// without surrounding blanks, the low 16 bits of the pressure, and the tables.
pub open spec fn is_side_of(raw: Option<RawTrackpadSide>, t: TrackpadSideConfig) -> bool {
    match raw {
        None => {
            &&& t.mode@ == "disabled"@
            &&& t.click_pressure is None
            &&& t.handler_config@ == Seq::<char>::empty()
            &&& t.kde_config@ == Seq::<char>::empty()
        },
        Some(s) => {
            &&& t.mode@ == match s.mode {
                Some(m) => lowercase(trimmed(m@)),
                None => "disabled"@,
            }
            &&& t.click_pressure == match s.click_pressure {
                Some(p) => Some(p as u16),
                None => None,
            }
            &&& t.handler_config@ == s.table@
            &&& t.kde_config@ == match s.kde {
                Some(k) => k@,
                None => Seq::<char>::empty(),
            }
        },
    }
}

fn text_or_empty(t: &Option<String>) -> (r: String)
    ensures
        r@ == match *t {
            Some(k) => k@,
            None => Seq::<char>::empty(),
        },
{
    match t {
        Some(k) => k.clone(),
        None => String::new(),
    }
}

/// One side of the trackpad section.
pub fn parse_trackpad_side(raw: &Option<RawTrackpadSide>) -> (r: TrackpadSideConfig)
    ensures
        is_side_of(*raw, r),
{
    match raw {
        None => TrackpadSideConfig::default(),
        Some(s) => TrackpadSideConfig {
            mode: match &s.mode {
                Some(m) => lowercase_text(trimmed_text(m.as_str()).as_str()),
                None => "disabled".to_owned(),
            },
            click_pressure: match s.click_pressure {
                Some(p) => Some(
                    #[verifier::truncate]
                    (p as u16),
                ),
                None => None,
            },
            handler_config: s.table.clone(),
            kde_config: text_or_empty(&s.kde),
        },
    }
}

/// Whether `t` is what the trackpad section says.
pub open spec fn is_trackpad_of(raw: RawTrackpadConfig, t: TrackpadConfig) -> bool {
    &&& is_side_of(raw.left, t.left)
    &&& is_side_of(raw.right, t.right)
    &&& t.combined_gesture_device == (raw.combined_gesture_device == Some(true))
    &&& t.gesture_handler_config@ == match raw.gestures {
        Some(g) => g.table@,
        None => Seq::<char>::empty(),
    }
    &&& t.gesture_kde_config@ == match raw.gestures {
        Some(g) => match g.kde {
            Some(k) => k@,
            None => Seq::<char>::empty(),
        },
        None => Seq::<char>::empty(),
    }
}

fn parse_trackpad(raw: &RawTrackpadConfig) -> (r: TrackpadConfig)
    ensures
        is_trackpad_of(*raw, r),
{
    TrackpadConfig {
        left: parse_trackpad_side(&raw.left),
        right: parse_trackpad_side(&raw.right),
        combined_gesture_device: match raw.combined_gesture_device {
            Some(b) => b,
            None => false,
        },
        gesture_handler_config: match &raw.gestures {
            Some(g) => g.table.clone(),
            None => String::new(),
        },
        gesture_kde_config: match &raw.gestures {
            Some(g) => text_or_empty(&g.kde),
            None => String::new(),
        },
    }
}

// ── Whole files ──────────────────────────────────────────────────────────────

/// The device of a section: any class but `hid-steam` is a plain input device.
pub open spec fn device_of(raw: Option<RawDeviceDeclaration>) -> Option<(
    DeviceClass,
    Seq<String>,
)> {
    match raw {
        Some(d) => Some(
            (
                if d.class@ == "hid-steam"@ {
                    DeviceClass::HidSteam
                } else {
                    DeviceClass::Evdev
                },
                d.names@,
            ),
        ),
        None => None,
    }
}

impl Config {
    /// The configuration that a file's sections describe.
    pub fn from_raw(raw_config: &RawConfig, file_name: String, aliases: &TextTable) -> (r: Config)
        requires
            movements_valid(raw_config.movements@),
        ensures
            r.name == file_name,
            r.bindings@ == read_file(*raw_config, aliases@).bindings,
            r.override_bindings is None,
            r.settings@ == raw_config.settings@,
            r.mapped_modifiers.default@ == default_modifiers(),
            r.mapped_modifiers.custom@ == read_file(*raw_config, aliases@).custom,
            r.mapped_modifiers.all@ == canonical(
                default_modifiers() + r.mapped_modifiers.custom@,
            ),
            is_trackpad_of(raw_config.trackpad, r.trackpad),
            r.gaming_mode_config@ == gaming_mode_of(raw_config.gaming_mode, aliases@),
            r@.device == device_of(raw_config.device),
            r.module@.requires_compositor == raw_config.module.requires_compositor,
            r.module@.match_window_class == match raw_config.module.match_window_class {
                Some(v) => Some(v@),
                None => None,
            },
            r.module@.exclusive_group == raw_config.module.exclusive_group,
            r.module@.layout == raw_config.module.layout,
            r.module_includes@ == raw_config.modules.names@,
            r.aliases@ == aliases@,
    {
        let (bindings, settings, mapped_modifiers) = parse_raw_config(raw_config, aliases);
        Config {
            name: file_name,
            bindings,
            override_bindings: None,
            settings,
            mapped_modifiers,
            trackpad: parse_trackpad(&raw_config.trackpad),
            gaming_mode_config: GamingModeConfig::from_raw(&raw_config.gaming_mode, aliases),
            device: match &raw_config.device {
                Some(d) => Some(
                    DeviceDeclaration {
                        class: if same_text(d.class.as_str(), "hid-steam") {
                            DeviceClass::HidSteam
                        } else {
                            DeviceClass::Evdev
                        },
                        names: copy_texts(&d.names),
                    },
                ),
                None => None,
            },
            module: ModuleMetadata {
                requires_compositor: copy_text(&raw_config.module.requires_compositor),
                match_window_class: match &raw_config.module.match_window_class {
                    Some(v) => Some(copy_texts(v)),
                    None => None,
                },
                exclusive_group: copy_text(&raw_config.module.exclusive_group),
                layout: raw_config.module.layout,
            },
            module_includes: copy_texts(&raw_config.modules.names),
            aliases: aliases.clone(),
        }
    }
}

impl Config {
    /// The aliases that a file's device section declares; none without one.
    pub fn read_aliases(device: &Option<RawDeviceDeclaration>) -> (r: TextTable)
        ensures
            r@ == match *device {
                Some(d) => d.aliases@,
                None => Map::<Seq<char>, Seq<char>>::empty(),
            },
    {
        match device {
            Some(d) => d.aliases.clone(),
            None => KeyedList::new(),
        }
    }
}

// ── Laws ─────────────────────────────────────────────────────────────────────

/// Hints register no modifier and bind nothing: without them a file says the
/// same of everything else.
pub proof fn law_hints_bind_nothing(
    raw: RawConfig,
    hints: TextTable,
    aliases: Map<Seq<char>, Seq<char>>,
)
    ensures
        ({
            let with = read_file(RawConfig { hints, ..raw }, aliases);
            let without = read_file(raw, aliases);
            &&& with.custom == without.custom
            &&& with.bindings == (BindingsView { hints: hints@, ..without.bindings })
        }),
{
}

/// A combo with a modifier that nobody knows is dropped whole: it does not
/// become a binding of the button alone.
pub proof fn law_unknown_modifier_drops_the_line(
    input: Seq<char>,
    default: Seq<Event>,
    aliases: Map<Seq<char>, Seq<char>>,
)
    requires
        cut_last(input, '-') matches Some((mods, _)) && all_events(
            aliases,
            nonempty(pieces(mods, '-')),
        ) is None,
    ensures
        binding_input(input, default, aliases).trigger is None,
        binding_input(input, default, aliases).registered.len() == 0,
{
}

/// Whether the left side of a line names a combo.
pub open spec fn says(
    input: Seq<char>,
    aliases: Map<Seq<char>, Seq<char>>,
    c: ComboView,
) -> bool {
    let v = binding_input(input, default_modifiers(), aliases);
    v.trigger == Some(c.0) && v.held == c.1
}

proof fn lemma_movement_lines(
    start: Reading,
    aliases: Map<Seq<char>, Seq<char>>,
    lines: Seq<(String, String)>,
    c: ComboView,
    i: int,
)
    ensures
        ({
            let done = read_movements(start, default_modifiers(), aliases, lines).bindings;
            &&& done.movements.contains_key(c) <==> start.bindings.movements.contains_key(c)
                || exists|j: int|
                0 <= j < lines.len() && says((#[trigger] lines[j]).0@, aliases, c)
            &&& 0 <= i < lines.len() && says(lines[i].0@, aliases, c) && (forall|j: int|
                i < j < lines.len() ==> !says((#[trigger] lines[j]).0@, aliases, c))
                ==> done.movements[c] == relative_of_name(lines[i].1@)->0
            &&& done == (BindingsView { movements: done.movements, ..start.bindings })
        }),
    decreases lines.len(),
{
    if lines.len() > 0 {
        let init = lines.drop_last();
        lemma_movement_lines(start, aliases, init, c, i);
        assert(lines[lines.len() - 1] == lines.last());
        if exists|j: int| 0 <= j < init.len() && says((#[trigger] init[j]).0@, aliases, c) {
            let j = choose|j: int|
                0 <= j < init.len() && says((#[trigger] init[j]).0@, aliases, c);
            assert(lines[j] == init[j]);
        }
        if exists|j: int| 0 <= j < lines.len() && says((#[trigger] lines[j]).0@, aliases, c) {
            let j = choose|j: int|
                0 <= j < lines.len() && says((#[trigger] lines[j]).0@, aliases, c);
            if j < init.len() {
                assert(init[j] == lines[j]);
            }
        }
        if 0 <= i < init.len() {
            assert(init[i] == lines[i]);
            assert forall|j: int|
                i < j < init.len() && (forall|j: int|
                    i < j < lines.len() ==> !says(
                        (#[trigger] lines[j]).0@,
                        aliases,
                        c,
                    )) implies !says((#[trigger] init[j]).0@, aliases, c) by {
                assert(init[j] == lines[j]);
            }
        }
    }
}

proof fn lemma_remap_lines(
    start: Reading,
    aliases: Map<Seq<char>, Seq<char>>,
    lines: Seq<(String, RemapValue)>,
    c: ComboView,
    i: int,
)
    ensures
        ({
            let done = read_remaps(start, default_modifiers(), aliases, lines).bindings;
            let last = 0 <= i < lines.len() && says(lines[i].0@, aliases, c) && (forall|j: int|
                i < j < lines.len() ==> !says((#[trigger] lines[j]).0@, aliases, c));
            &&& done.remap.contains_key(c) <==> start.bindings.remap.contains_key(c) || exists|
                j: int,
            |
                0 <= j < lines.len() && says((#[trigger] lines[j]).0@, aliases, c)
            &&& last ==> done.remap[c] == remap_keys(lines[i].1)
            &&& done.no_pause.contains(c) <==> start.bindings.no_pause.contains(c) || exists|
                j: int,
            |
                0 <= j < lines.len() && says((#[trigger] lines[j]).0@, aliases, c)
                    && remap_attributes(lines[j].1).no_pause
            &&& done.while_gaming.contains(c) <==> start.bindings.while_gaming.contains(c)
                || exists|j: int|
                0 <= j < lines.len() && says((#[trigger] lines[j]).0@, aliases, c)
                    && remap_attributes(lines[j].1).while_gaming
            &&& done.silent.contains(c) <==> start.bindings.silent.contains(c) || exists|j: int|
                0 <= j < lines.len() && says((#[trigger] lines[j]).0@, aliases, c)
                    && remap_attributes(lines[j].1).silent
            &&& done.labels.contains_key(c) <==> start.bindings.labels.contains_key(c) || exists|
                j: int,
            |
                0 <= j < lines.len() && says((#[trigger] lines[j]).0@, aliases, c)
                    && remap_attributes(lines[j].1).label is Some
            &&& last && remap_attributes(lines[i].1).label is Some ==> done.labels[c]
                == remap_attributes(lines[i].1).label->0
            &&& !(exists|j: int|
                0 <= j < lines.len() && says((#[trigger] lines[j]).0@, aliases, c))
                && start.bindings.labels.contains_key(c) ==> done.labels[c]
                == start.bindings.labels[c]
            &&& done.commands == start.bindings.commands
            &&& done.movements == start.bindings.movements
        }),
    decreases lines.len(),
{
    if lines.len() > 0 {
        let init = lines.drop_last();
        lemma_remap_lines(start, aliases, init, c, i);
        assert(lines[lines.len() - 1] == lines.last());
        assert forall|j: int| 0 <= j < init.len() implies #[trigger] init[j] == lines[j] by {}
        assert forall|j: int| 0 <= j < init.len() implies #[trigger] lines[j] == init[j] by {}
        let input = binding_input(lines.last().0@, default_modifiers(), aliases);
        if says(lines.last().0@, aliases, c) {
            assert((input.trigger->0, input.held) == c);
        } else if input.trigger is Some {
            assert((input.trigger->0, input.held) != c);
        }
    }
}

proof fn lemma_command_lines(
    start: Reading,
    aliases: Map<Seq<char>, Seq<char>>,
    lines: Seq<(String, CommandValue)>,
    c: ComboView,
    i: int,
)
    ensures
        ({
            let done = read_commands(start, default_modifiers(), aliases, lines).bindings;
            let last = 0 <= i < lines.len() && says(lines[i].0@, aliases, c) && (forall|j: int|
                i < j < lines.len() ==> !says((#[trigger] lines[j]).0@, aliases, c));
            &&& done.commands.contains_key(c) <==> start.bindings.commands.contains_key(c)
                || exists|j: int|
                0 <= j < lines.len() && says((#[trigger] lines[j]).0@, aliases, c)
            &&& last ==> done.commands[c] == command_run(lines[i].1)
            &&& done.no_pause.contains(c) <==> start.bindings.no_pause.contains(c) || exists|
                j: int,
            |
                0 <= j < lines.len() && says((#[trigger] lines[j]).0@, aliases, c)
                    && command_attributes(lines[j].1).no_pause
            &&& done.while_gaming.contains(c) <==> start.bindings.while_gaming.contains(c)
                || exists|j: int|
                0 <= j < lines.len() && says((#[trigger] lines[j]).0@, aliases, c)
                    && command_attributes(lines[j].1).while_gaming
            &&& done.silent.contains(c) <==> start.bindings.silent.contains(c) || exists|j: int|
                0 <= j < lines.len() && says((#[trigger] lines[j]).0@, aliases, c)
                    && command_attributes(lines[j].1).silent
            &&& done.labels.contains_key(c) <==> start.bindings.labels.contains_key(c) || exists|
                j: int,
            |
                0 <= j < lines.len() && says((#[trigger] lines[j]).0@, aliases, c)
                    && command_attributes(lines[j].1).label is Some
            &&& last && command_attributes(lines[i].1).label is Some ==> done.labels[c]
                == command_attributes(lines[i].1).label->0
            &&& !(exists|j: int|
                0 <= j < lines.len() && says((#[trigger] lines[j]).0@, aliases, c))
                && start.bindings.labels.contains_key(c) ==> done.labels[c]
                == start.bindings.labels[c]
            &&& done.remap == start.bindings.remap
            &&& done.movements == start.bindings.movements
        }),
    decreases lines.len(),
{
    if lines.len() > 0 {
        let init = lines.drop_last();
        lemma_command_lines(start, aliases, init, c, i);
        assert(lines[lines.len() - 1] == lines.last());
        assert forall|j: int| 0 <= j < init.len() implies #[trigger] init[j] == lines[j] by {}
        assert forall|j: int| 0 <= j < init.len() implies #[trigger] lines[j] == init[j] by {}
        let input = binding_input(lines.last().0@, default_modifiers(), aliases);
        if says(lines.last().0@, aliases, c) {
            assert((input.trigger->0, input.held) == c);
        } else if input.trigger is Some {
            assert((input.trigger->0, input.held) != c);
        }
    }
}

/// The movements section becomes movements: exactly the combos that a line of
/// it names are bound, each to the movement of the last line that names it.
pub proof fn law_movement_lines_become_movements(
    raw: RawConfig,
    aliases: Map<Seq<char>, Seq<char>>,
    c: ComboView,
    i: int,
)
    ensures
        ({
            let lines = raw.movements@;
            let movements = read_file(raw, aliases).bindings.movements;
            &&& movements.contains_key(c) <==> exists|j: int|
                0 <= j < lines.len() && says((#[trigger] lines[j]).0@, aliases, c)
            &&& 0 <= i < lines.len() && says(lines[i].0@, aliases, c) && (forall|j: int|
                i < j < lines.len() ==> !says((#[trigger] lines[j]).0@, aliases, c)) ==> {
                &&& movements.contains_key(c)
                &&& lines[i].1@ == "CURSOR_UP"@ ==> movements[c] == Relative::Cursor(
                    Cursor::CURSOR_UP,
                )
                &&& lines[i].1@ == "CURSOR_DOWN"@ ==> movements[c] == Relative::Cursor(
                    Cursor::CURSOR_DOWN,
                )
                &&& lines[i].1@ == "CURSOR_LEFT"@ ==> movements[c] == Relative::Cursor(
                    Cursor::CURSOR_LEFT,
                )
                &&& lines[i].1@ == "CURSOR_RIGHT"@ ==> movements[c] == Relative::Cursor(
                    Cursor::CURSOR_RIGHT,
                )
                &&& lines[i].1@ == "SCROLL_UP"@ ==> movements[c] == Relative::Scroll(
                    Scroll::SCROLL_UP,
                )
                &&& lines[i].1@ == "SCROLL_DOWN"@ ==> movements[c] == Relative::Scroll(
                    Scroll::SCROLL_DOWN,
                )
                &&& lines[i].1@ == "SCROLL_LEFT"@ ==> movements[c] == Relative::Scroll(
                    Scroll::SCROLL_LEFT,
                )
                &&& lines[i].1@ == "SCROLL_RIGHT"@ ==> movements[c] == Relative::Scroll(
                    Scroll::SCROLL_RIGHT,
                )
            }
        }),
{
    let default = default_modifiers();
    let start = file_start(raw, aliases);
    let remaps = read_remaps(start, default, aliases, raw.remap@);
    let commands = read_commands(remaps, default, aliases, raw.commands@);
    lemma_remap_lines(start, aliases, raw.remap@, c, i);
    lemma_command_lines(remaps, aliases, raw.commands@, c, i);
    lemma_movement_lines(commands, aliases, raw.movements@, c, i);
    crate::event::law_movements_have_names();
}

/// What is known of a file before its sections are read.
spec fn file_start(raw: RawConfig, aliases: Map<Seq<char>, Seq<char>>) -> Reading {
    Reading {
        bindings: no_bindings(),
        custom: setting_modifiers(raw.settings@, "CUSTOM_MODIFIERS"@, aliases)
            + setting_modifiers(raw.settings@, "LSTICK_ACTIVATION_MODIFIERS"@, aliases)
            + setting_modifiers(raw.settings@, "RSTICK_ACTIVATION_MODIFIERS"@, aliases),
    }
}

/// The remap section becomes remaps: exactly the combos that a line of it names
/// are remapped, each to the keys of the last line that names it, in their
/// order, whether the line has attributes or not.
pub proof fn law_remap_lines_become_remaps(
    raw: RawConfig,
    aliases: Map<Seq<char>, Seq<char>>,
    c: ComboView,
    i: int,
)
    ensures
        ({
            let lines = raw.remap@;
            let remap = read_file(raw, aliases).bindings.remap;
            &&& remap.contains_key(c) <==> exists|j: int|
                0 <= j < lines.len() && says((#[trigger] lines[j]).0@, aliases, c)
            &&& 0 <= i < lines.len() && says(lines[i].0@, aliases, c) && (forall|j: int|
                i < j < lines.len() ==> !says((#[trigger] lines[j]).0@, aliases, c)) ==> {
                &&& remap.contains_key(c)
                &&& lines[i].1 matches RemapValue::Simple(keys) ==> remap[c] == keys@
                &&& lines[i].1 matches RemapValue::WithAttrs { keys, .. } ==> remap[c] == keys@
            }
        }),
{
    let default = default_modifiers();
    let start = file_start(raw, aliases);
    let remaps = read_remaps(start, default, aliases, raw.remap@);
    let commands = read_commands(remaps, default, aliases, raw.commands@);
    lemma_remap_lines(start, aliases, raw.remap@, c, i);
    lemma_command_lines(remaps, aliases, raw.commands@, c, i);
    lemma_movement_lines(commands, aliases, raw.movements@, c, i);
}

/// The commands section becomes commands: exactly the combos that a line of it
/// names run something, each what the last line that names it says, in its
/// order, whether the line has attributes or not.
pub proof fn law_command_lines_become_commands(
    raw: RawConfig,
    aliases: Map<Seq<char>, Seq<char>>,
    c: ComboView,
    i: int,
)
    ensures
        ({
            let lines = raw.commands@;
            let commands = read_file(raw, aliases).bindings.commands;
            &&& commands.contains_key(c) <==> exists|j: int|
                0 <= j < lines.len() && says((#[trigger] lines[j]).0@, aliases, c)
            &&& 0 <= i < lines.len() && says(lines[i].0@, aliases, c) && (forall|j: int|
                i < j < lines.len() ==> !says((#[trigger] lines[j]).0@, aliases, c)) ==> {
                &&& commands.contains_key(c)
                &&& lines[i].1 matches CommandValue::Simple(run) ==> commands[c] == run@
                &&& lines[i].1 matches CommandValue::WithAttrs { run, .. } ==> commands[c] == run@
            }
        }),
{
    let default = default_modifiers();
    let start = file_start(raw, aliases);
    let remaps = read_remaps(start, default, aliases, raw.remap@);
    let commands = read_commands(remaps, default, aliases, raw.commands@);
    lemma_remap_lines(start, aliases, raw.remap@, c, i);
    lemma_command_lines(remaps, aliases, raw.commands@, c, i);
    lemma_movement_lines(commands, aliases, raw.movements@, c, i);
}

/// A combo is marked, by each of the three marks, if and only if a remap or
/// command line that names it carries the mark. It has a label if and only if
/// such a line has one.
pub proof fn law_attributes_come_from_their_lines(
    raw: RawConfig,
    aliases: Map<Seq<char>, Seq<char>>,
    c: ComboView,
)
    ensures
        ({
            let remaps = raw.remap@;
            let commands = raw.commands@;
            let b = read_file(raw, aliases).bindings;
            &&& b.no_pause.contains(c) <==> (exists|j: int|
                0 <= j < remaps.len() && says((#[trigger] remaps[j]).0@, aliases, c) && (
                remaps[j].1 matches RemapValue::WithAttrs { no_pause, .. } && no_pause)) || (
            exists|j: int|
                0 <= j < commands.len() && says((#[trigger] commands[j]).0@, aliases, c) && (
                commands[j].1 matches CommandValue::WithAttrs { no_pause, .. } && no_pause))
            &&& b.while_gaming.contains(c) <==> (exists|j: int|
                0 <= j < remaps.len() && says((#[trigger] remaps[j]).0@, aliases, c) && (
                remaps[j].1 matches RemapValue::WithAttrs { while_gaming, .. } && while_gaming))
                || (exists|j: int|
                0 <= j < commands.len() && says((#[trigger] commands[j]).0@, aliases, c) && (
                commands[j].1 matches CommandValue::WithAttrs { while_gaming, .. }
                    && while_gaming))
            &&& b.silent.contains(c) <==> (exists|j: int|
                0 <= j < remaps.len() && says((#[trigger] remaps[j]).0@, aliases, c) && (
                remaps[j].1 matches RemapValue::WithAttrs { silent, .. } && silent)) || (exists|
                j: int,
            |
                0 <= j < commands.len() && says((#[trigger] commands[j]).0@, aliases, c) && (
                commands[j].1 matches CommandValue::WithAttrs { silent, .. } && silent))
            &&& b.labels.contains_key(c) <==> (exists|j: int|
                0 <= j < remaps.len() && says((#[trigger] remaps[j]).0@, aliases, c) && (
                remaps[j].1 matches RemapValue::WithAttrs { label, .. } && label is Some)) || (
            exists|j: int|
                0 <= j < commands.len() && says((#[trigger] commands[j]).0@, aliases, c) && (
                commands[j].1 matches CommandValue::WithAttrs { label, .. } && label is Some))
        }),
{
    let default = default_modifiers();
    let start = file_start(raw, aliases);
    let read = read_remaps(start, default, aliases, raw.remap@);
    let more = read_commands(read, default, aliases, raw.commands@);
    let remaps = raw.remap@;
    let commands = raw.commands@;
    lemma_remap_lines(start, aliases, remaps, c, 0);
    lemma_command_lines(read, aliases, commands, c, 0);
    lemma_movement_lines(more, aliases, raw.movements@, c, 0);
    assert forall|j: int| 0 <= j < remaps.len() implies {
        let a = remap_attributes((#[trigger] remaps[j]).1);
        &&& a.no_pause <==> (remaps[j].1 matches RemapValue::WithAttrs { no_pause, .. }
            && no_pause)
        &&& a.while_gaming <==> (remaps[j].1 matches RemapValue::WithAttrs { while_gaming, .. }
            && while_gaming)
        &&& a.silent <==> (remaps[j].1 matches RemapValue::WithAttrs { silent, .. } && silent)
        &&& a.label is Some <==> (remaps[j].1 matches RemapValue::WithAttrs { label, .. }
            && label is Some)
    } by {}
    assert forall|j: int| 0 <= j < commands.len() implies {
        let a = command_attributes((#[trigger] commands[j]).1);
        &&& a.no_pause <==> (commands[j].1 matches CommandValue::WithAttrs { no_pause, .. }
            && no_pause)
        &&& a.while_gaming <==> (commands[j].1 matches CommandValue::WithAttrs {
            while_gaming,
            ..
        } && while_gaming)
        &&& a.silent <==> (commands[j].1 matches CommandValue::WithAttrs { silent, .. } && silent)
        &&& a.label is Some <==> (commands[j].1 matches CommandValue::WithAttrs { label, .. }
            && label is Some)
    } by {}
}

/// The label of a combo is that of the last line that names it, where that line
/// has one; the commands section comes after the remap section.
pub proof fn law_label_is_that_of_the_last_line(
    raw: RawConfig,
    aliases: Map<Seq<char>, Seq<char>>,
    c: ComboView,
    i: int,
)
    ensures
        ({
            let remaps = raw.remap@;
            let commands = raw.commands@;
            let labels = read_file(raw, aliases).bindings.labels;
            &&& 0 <= i < commands.len() && says(commands[i].0@, aliases, c) && (forall|j: int|
                i < j < commands.len() ==> !says((#[trigger] commands[j]).0@, aliases, c)) ==> (
            commands[i].1 matches CommandValue::WithAttrs { label: Some(text), .. } ==> labels[c]
                == text@)
            &&& 0 <= i < remaps.len() && says(remaps[i].0@, aliases, c) && (forall|j: int|
                i < j < remaps.len() ==> !says((#[trigger] remaps[j]).0@, aliases, c)) && (forall|
                j: int,
            |
                0 <= j < commands.len() ==> !says((#[trigger] commands[j]).0@, aliases, c)) ==> (
            remaps[i].1 matches RemapValue::WithAttrs { label: Some(text), .. } ==> labels[c]
                == text@)
        }),
{
    let default = default_modifiers();
    let start = file_start(raw, aliases);
    let read = read_remaps(start, default, aliases, raw.remap@);
    let more = read_commands(read, default, aliases, raw.commands@);
    lemma_remap_lines(start, aliases, raw.remap@, c, i);
    lemma_command_lines(read, aliases, raw.commands@, c, i);
    lemma_movement_lines(more, aliases, raw.movements@, c, i);
}

/// Names, each with a dash behind it.
pub open spec fn dashed(names: Seq<Seq<char>>) -> Seq<char>
    decreases names.len(),
{
    if names.len() == 0 {
        Seq::empty()
    } else {
        (dashed(names.drop_last()) + names.last()).push('-')
    }
}

pub(crate) proof fn lemma_pieces_of_dashed(names: Seq<Seq<char>>)
    requires
        names.len() > 0,
        forall|i: int| 0 <= i < names.len() ==> !(#[trigger] names[i]).contains('-'),
    ensures
        pieces(dashed(names).drop_last(), '-') == names,
    decreases names.len(),
{
    let init = names.drop_last();
    let last = names.last();
    assert(names[names.len() - 1] == last);
    assert(dashed(names).drop_last() =~= dashed(init) + last);
    lemma_one_piece(last, '-');
    if init.len() == 0 {
        assert(dashed(init) + last =~= last);
        assert(names =~= seq![last]);
    } else {
        assert forall|i: int| 0 <= i < init.len() implies !(#[trigger] init[i]).contains('-') by {
            assert(init[i] == names[i]);
        }
        lemma_pieces_of_dashed(init);
        let front = dashed(init).drop_last();
        assert(dashed(init) =~= front.push('-'));
        lemma_pieces_add(front, last, '-');
        assert(names =~= init + seq![last]);
    }
}

proof fn lemma_nonempty_all(names: Seq<Seq<char>>)
    requires
        forall|i: int| 0 <= i < names.len() ==> (#[trigger] names[i]).len() > 0,
    ensures
        nonempty(names) == names,
        nonempty(seq![Seq::<char>::empty()] + names) == names,
    decreases names.len(),
{
    let led = seq![Seq::<char>::empty()] + names;
    if names.len() > 0 {
        let init = names.drop_last();
        assert forall|i: int| 0 <= i < init.len() implies (#[trigger] init[i]).len() > 0 by {
            assert(init[i] == names[i]);
        }
        lemma_nonempty_all(init);
        assert(names[names.len() - 1] == names.last());
        assert(init.push(names.last()) =~= names);
        assert(led.drop_last() =~= seq![Seq::<char>::empty()] + init);
        assert(led.last() == names.last());
    } else {
        assert(led.drop_last() =~= Seq::<Seq<char>>::empty());
        assert(led.last() == Seq::<char>::empty());
        assert(nonempty(Seq::<Seq<char>>::empty()) =~= names);
        assert(nonempty(led) =~= names);
        assert(nonempty(names) =~= names);
    }
}

proof fn lemma_all_events_known(aliases: Map<Seq<char>, Seq<char>>, names: Seq<Seq<char>>)
    requires
        forall|i: int|
            0 <= i < names.len() ==> event_of_name(unaliased(aliases, #[trigger] names[i]))
                is Some,
    ensures
        all_events(aliases, names) == Some(
            Seq::new(
                names.len(),
                |i: int| event_of_name(unaliased(aliases, names[i]))->0,
            ),
        ),
    decreases names.len(),
{
    let want = Seq::new(
        names.len(),
        |i: int| event_of_name(unaliased(aliases, names[i]))->0,
    );
    if names.len() > 0 {
        let init = names.drop_last();
        assert forall|i: int| 0 <= i < init.len() implies event_of_name(
            unaliased(aliases, #[trigger] init[i]),
        ) is Some by {
            assert(init[i] == names[i]);
        }
        lemma_all_events_known(aliases, init);
        assert(names[names.len() - 1] == names.last());
        assert(all_events(aliases, names)->0 =~= want);
    } else {
        assert(all_events(aliases, names)->0 =~= want);
    }
}

/// The left side of a binding is read part by part: the last part is the
/// trigger, the parts before it have to be held, in any order and however often
/// they are written, and with a dash in front a hold marker comes behind them.
/// The held ones that are not among the default modifiers become custom
/// modifiers.
pub proof fn law_combos_are_read_part_by_part(
    leading: bool,
    names: Seq<Seq<char>>,
    trigger: Seq<char>,
    aliases: Map<Seq<char>, Seq<char>>,
    e: Event,
)
    requires
        !trigger.contains('-'),
        forall|i: int|
            0 <= i < names.len() ==> (#[trigger] names[i]).len() > 0 && !names[i].contains('-')
                && event_of_name(unaliased(aliases, names[i])) is Some,
    ensures
        ({
            let input = (if leading {
                seq!['-']
            } else {
                Seq::<char>::empty()
            }) + dashed(names) + trigger;
            let v = binding_input(input, default_modifiers(), aliases);
            let named = exists|i: int|
                0 <= i < names.len() && event_of_name(unaliased(aliases, #[trigger] names[i]))
                    == Some(e);
            let held = if leading {
                v.held.drop_last()
            } else {
                v.held
            };
            &&& v.trigger == event_of_name(unaliased(aliases, trigger))
            &&& leading ==> v.held.len() > 0 && v.held.last() == Event::Hold
            &&& crate::order::ascending::<Event>(held)
            &&& held.contains(e) <==> named
            &&& v.registered.contains(e) <==> named && e != Event::Key(Key(42)) && e != Event::Key(
                Key(29),
            ) && e != Event::Key(Key(56)) && e != Event::Key(Key(54)) && e != Event::Key(Key(97))
                && e != Event::Key(Key(100)) && e != Event::Key(Key(125))
        }),
{
    let default = default_modifiers();
    let front = (if leading {
        seq!['-']
    } else {
        Seq::<char>::empty()
    }) + dashed(names);
    let input = front + trigger;
    let v = binding_input(input, default, aliases);
    let events = Seq::new(
        names.len(),
        |i: int| event_of_name(unaliased(aliases, names[i]))->0,
    );
    lemma_all_events_known(aliases, names);
    lemma_nonempty_all(names);
    crate::order::lemma_arrange::<Event>(events);
    let modifiers = canonical(events);
    lemma_missing_from(modifiers, default, e);
    assert(events.contains(e) <==> exists|i: int|
        0 <= i < names.len() && event_of_name(unaliased(aliases, #[trigger] names[i])) == Some(
            e,
        )) by {
        if events.contains(e) {
            let i = choose|i: int| 0 <= i < events.len() && events[i] == e;
            assert(event_of_name(unaliased(aliases, names[i])) == Some(e));
        }
        if exists|i: int|
            0 <= i < names.len() && event_of_name(unaliased(aliases, #[trigger] names[i])) == Some(
                e,
            ) {
            let i = choose|i: int|
                0 <= i < names.len() && event_of_name(unaliased(aliases, #[trigger] names[i]))
                    == Some(e);
            assert(events[i] == e);
        }
    }
    lemma_default_members(e);
    if front.len() == 0 {
        assert(names.len() == 0);
        assert(input =~= trigger);
        assert forall|j: int| -1 < j < input.len() implies #[trigger] input[j] != '-' by {
            assert(trigger.contains(trigger[j]));
        }
        if input.len() > 0 {
            lemma_cut_last(input, '-', -1);
        }
        assert(cut_last(input, '-') is None);
        assert(!events.contains(e));
    } else {
        let at = front.len() - 1;
        assert(front[at] == '-');
        assert(input[at] == '-');
        assert forall|j: int| at < j < input.len() implies #[trigger] input[j] != '-' by {
            assert(input[j] == trigger[j - front.len()]);
            assert(trigger.contains(trigger[j - front.len()]));
        }
        lemma_cut_last(input, '-', at);
        assert(input.take(at) =~= front.drop_last());
        assert(input.skip(at + 1) =~= trigger);
        let mods = front.drop_last();
        if names.len() > 0 {
            lemma_pieces_of_dashed(names);
        }
        let parts = pieces(mods, '-');
        if leading {
            if names.len() == 0 {
                assert(mods =~= Seq::<char>::empty());
                assert(parts =~= seq![Seq::<char>::empty()] + names);
            } else {
                let tail = dashed(names).drop_last();
                assert(mods =~= Seq::<char>::empty().push('-') + tail);
                lemma_pieces_add(Seq::empty(), tail, '-');
                assert(pieces(Seq::<char>::empty(), '-') =~= seq![Seq::<char>::empty()]);
                assert(parts =~= seq![Seq::<char>::empty()] + names);
            }
            assert(parts[0].len() == 0);
            assert(v.held == modifiers.push(Event::Hold));
            assert(v.held.drop_last() =~= modifiers);
        } else {
            assert(mods =~= dashed(names).drop_last());
            assert(parts == names);
            assert(parts[0] == names[0]);
            assert(v.held == modifiers);
        }
    }
}

proof fn lemma_missing_from(list: Seq<Event>, known: Seq<Event>, e: Event)
    ensures
        missing_from(list, known).contains(e) <==> list.contains(e) && !known.contains(e),
    decreases list.len(),
{
    if list.len() > 0 {
        let init = list.drop_last();
        let last = list.last();
        lemma_missing_from(init, known, e);
        assert(list[list.len() - 1] == last);
        if list.contains(e) && e != last {
            let i = choose|i: int| 0 <= i < list.len() && list[i] == e;
            assert(init[i] == e);
        }
        if init.contains(e) {
            let i = choose|i: int| 0 <= i < init.len() && init[i] == e;
            assert(list[i] == e);
        }
        let m = missing_from(init, known);
        let all = m.push(last);
        assert(all[m.len() as int] == last);
        if m.contains(e) {
            let i = choose|i: int| 0 <= i < m.len() && m[i] == e;
            assert(all[i] == e);
        }
        if all.contains(e) && e != last {
            let i = choose|i: int| 0 <= i < all.len() && all[i] == e;
            assert(m[i] == e);
        }
    }
}

proof fn lemma_default_members(e: Event)
    ensures
        default_modifiers().contains(e) <==> e == Event::Key(Key(42)) || e == Event::Key(Key(29))
            || e == Event::Key(Key(56)) || e == Event::Key(Key(54)) || e == Event::Key(Key(97))
            || e == Event::Key(Key(100)) || e == Event::Key(Key(125)),
{
    let d = default_modifiers();
    assert(d[0] == Event::Key(Key(42)) && d[1] == Event::Key(Key(29)) && d[2] == Event::Key(Key(56))
        && d[3] == Event::Key(Key(54)) && d[4] == Event::Key(Key(97)) && d[5] == Event::Key(
        Key(100),
    ) && d[6] == Event::Key(Key(125)));
}

proof fn lemma_custom_of_remaps(
    start: Reading,
    aliases: Map<Seq<char>, Seq<char>>,
    lines: Seq<(String, RemapValue)>,
    e: Event,
)
    ensures
        read_remaps(start, default_modifiers(), aliases, lines).custom.contains(e)
            <==> start.custom.contains(e) || exists|j: int|
            0 <= j < lines.len() && brings((#[trigger] lines[j]).0@, aliases, e),
    decreases lines.len(),
{
    if lines.len() > 0 {
        let init = lines.drop_last();
        lemma_custom_of_remaps(start, aliases, init, e);
        assert(lines[lines.len() - 1] == lines.last());
        assert forall|j: int| 0 <= j < init.len() implies #[trigger] init[j] == lines[j] by {}
        assert forall|j: int| 0 <= j < init.len() implies #[trigger] lines[j] == init[j] by {}
        lemma_sum_members(
            read_remaps(start, default_modifiers(), aliases, init).custom,
            binding_input(lines.last().0@, default_modifiers(), aliases).registered,
            e,
        );
    }
}

proof fn lemma_custom_of_commands(
    start: Reading,
    aliases: Map<Seq<char>, Seq<char>>,
    lines: Seq<(String, CommandValue)>,
    e: Event,
)
    ensures
        read_commands(start, default_modifiers(), aliases, lines).custom.contains(e)
            <==> start.custom.contains(e) || exists|j: int|
            0 <= j < lines.len() && brings((#[trigger] lines[j]).0@, aliases, e),
    decreases lines.len(),
{
    if lines.len() > 0 {
        let init = lines.drop_last();
        lemma_custom_of_commands(start, aliases, init, e);
        assert(lines[lines.len() - 1] == lines.last());
        assert forall|j: int| 0 <= j < init.len() implies #[trigger] init[j] == lines[j] by {}
        assert forall|j: int| 0 <= j < init.len() implies #[trigger] lines[j] == init[j] by {}
        lemma_sum_members(
            read_commands(start, default_modifiers(), aliases, init).custom,
            binding_input(lines.last().0@, default_modifiers(), aliases).registered,
            e,
        );
    }
}

proof fn lemma_custom_of_movements(
    start: Reading,
    aliases: Map<Seq<char>, Seq<char>>,
    lines: Seq<(String, String)>,
    e: Event,
)
    ensures
        read_movements(start, default_modifiers(), aliases, lines).custom.contains(e)
            <==> start.custom.contains(e) || exists|j: int|
            0 <= j < lines.len() && brings((#[trigger] lines[j]).0@, aliases, e),
    decreases lines.len(),
{
    if lines.len() > 0 {
        let init = lines.drop_last();
        lemma_custom_of_movements(start, aliases, init, e);
        assert(lines[lines.len() - 1] == lines.last());
        assert forall|j: int| 0 <= j < init.len() implies #[trigger] init[j] == lines[j] by {}
        assert forall|j: int| 0 <= j < init.len() implies #[trigger] lines[j] == init[j] by {}
        lemma_sum_members(
            read_movements(start, default_modifiers(), aliases, init).custom,
            binding_input(lines.last().0@, default_modifiers(), aliases).registered,
            e,
        );
    }
}

proof fn lemma_sum_members(a: Seq<Event>, b: Seq<Event>, e: Event)
    ensures
        (a + b).contains(e) <==> a.contains(e) || b.contains(e),
{
    if (a + b).contains(e) {
        let i = choose|i: int| 0 <= i < (a + b).len() && (a + b)[i] == e;
        if i < a.len() {
            assert(a[i] == e);
        } else {
            assert(b[i - a.len()] == e);
        }
    }
    if a.contains(e) {
        let i = choose|i: int| 0 <= i < a.len() && a[i] == e;
        assert((a + b)[i] == e);
    }
    if b.contains(e) {
        let i = choose|i: int| 0 <= i < b.len() && b[i] == e;
        assert((a + b)[i + a.len()] == e);
    }
}

/// Whether the left side of a line brings a custom modifier along.
pub open spec fn brings(
    input: Seq<char>,
    aliases: Map<Seq<char>, Seq<char>>,
    e: Event,
) -> bool {
    binding_input(input, default_modifiers(), aliases).registered.contains(e)
}

/// Whether a setting lists a modifier among its parts between dashes.
pub open spec fn lists_modifier(
    settings: Map<Seq<char>, Seq<char>>,
    parameter: Seq<char>,
    aliases: Map<Seq<char>, Seq<char>>,
    e: Event,
) -> bool {
    settings.contains_key(parameter) && exists|i: int|
        0 <= i < pieces(settings[parameter], '-').len() && (#[trigger] pieces(
            settings[parameter],
            '-',
        )[i]).len() > 0 && event_of_name(
            unaliased(aliases, pieces(settings[parameter], '-')[i]),
        ) == Some(e)
}

proof fn lemma_known_events(aliases: Map<Seq<char>, Seq<char>>, names: Seq<Seq<char>>, e: Event)
    ensures
        known_events(aliases, nonempty(names)).contains(e) <==> exists|i: int|
            0 <= i < names.len() && (#[trigger] names[i]).len() > 0 && event_of_name(
                unaliased(aliases, names[i]),
            ) == Some(e),
    decreases names.len(),
{
    if names.len() > 0 {
        let init = names.drop_last();
        let last = names.last();
        lemma_known_events(aliases, init, e);
        assert(names[names.len() - 1] == last);
        assert forall|j: int| 0 <= j < init.len() implies #[trigger] init[j] == names[j] by {}
        assert forall|j: int| 0 <= j < init.len() implies #[trigger] names[j] == init[j] by {}
        if last.len() > 0 {
            let known = nonempty(init);
            assert(nonempty(names).drop_last() =~= known);
            assert(nonempty(names).last() == last);
            let events = known_events(aliases, known);
            if let Some(x) = event_of_name(unaliased(aliases, last)) {
                assert(known_events(aliases, nonempty(names)) == events.push(x));
                assert(events.push(x) =~= events + seq![x]);
                lemma_sum_members(events, seq![x], e);
                assert(seq![x][0] == x);
            }
        }
    }
}

proof fn lemma_setting_members(
    settings: Map<Seq<char>, Seq<char>>,
    parameter: Seq<char>,
    aliases: Map<Seq<char>, Seq<char>>,
    e: Event,
)
    ensures
        setting_modifiers(settings, parameter, aliases).contains(e) <==> lists_modifier(
            settings,
            parameter,
            aliases,
            e,
        ),
{
    if settings.contains_key(parameter) {
        lemma_known_events(aliases, pieces(settings[parameter], '-'), e);
    }
}

/// The custom modifiers of a file are those that its settings list, for the
/// buttons or for the activation of a stick, and those that a line of any
/// section brings along; no others. Each stands once, in ascending order.
pub proof fn law_custom_modifiers_come_from_settings_and_lines(
    raw: RawConfig,
    aliases: Map<Seq<char>, Seq<char>>,
    e: Event,
)
    ensures
        crate::order::ascending::<Event>(read_file(raw, aliases).custom),
        read_file(raw, aliases).custom.contains(e) <==> {
            ||| lists_modifier(raw.settings@, "CUSTOM_MODIFIERS"@, aliases, e)
            ||| lists_modifier(raw.settings@, "LSTICK_ACTIVATION_MODIFIERS"@, aliases, e)
            ||| lists_modifier(raw.settings@, "RSTICK_ACTIVATION_MODIFIERS"@, aliases, e)
            ||| exists|j: int|
                0 <= j < raw.remap@.len() && brings((#[trigger] raw.remap@[j]).0@, aliases, e)
            ||| exists|j: int|
                0 <= j < raw.commands@.len() && brings((#[trigger] raw.commands@[j]).0@, aliases, e)
            ||| exists|j: int|
                0 <= j < raw.movements@.len() && brings(
                    (#[trigger] raw.movements@[j]).0@,
                    aliases,
                    e,
                )
        },
{
    let default = default_modifiers();
    let start = file_start(raw, aliases);
    let read = read_remaps(start, default, aliases, raw.remap@);
    let more = read_commands(read, default, aliases, raw.commands@);
    let done = read_movements(more, default, aliases, raw.movements@);
    lemma_custom_of_remaps(start, aliases, raw.remap@, e);
    lemma_custom_of_commands(read, aliases, raw.commands@, e);
    lemma_custom_of_movements(more, aliases, raw.movements@, e);
    crate::order::lemma_arrange::<Event>(done.custom);
    let a = setting_modifiers(raw.settings@, "CUSTOM_MODIFIERS"@, aliases);
    let b = setting_modifiers(raw.settings@, "LSTICK_ACTIVATION_MODIFIERS"@, aliases);
    let c = setting_modifiers(raw.settings@, "RSTICK_ACTIVATION_MODIFIERS"@, aliases);
    lemma_sum_members(a + b, c, e);
    lemma_sum_members(a, b, e);
    lemma_setting_members(raw.settings@, "CUSTOM_MODIFIERS"@, aliases, e);
    lemma_setting_members(raw.settings@, "LSTICK_ACTIVATION_MODIFIERS"@, aliases, e);
    lemma_setting_members(raw.settings@, "RSTICK_ACTIVATION_MODIFIERS"@, aliases, e);
    assert(canonical(done.custom).contains(e) <==> done.custom.contains(e));
    assert(start.custom == a + b + c);
    assert(read_file(raw, aliases).custom == canonical(done.custom));
}

/// An absent gaming mode section, and what is absent from one, is as it is by
/// default: a double click of BTN_BASE within 400 milliseconds, the same chain
/// for on and off, and games are looked for. The trigger is off where its key is
/// called so or is not known.
pub proof fn law_gaming_mode_defaults(
    raw: Option<RawGamingModeConfig>,
    aliases: Map<Seq<char>, Seq<char>>,
)
    ensures
        ({
            let g = gaming_mode_of(raw, aliases);
            let usual = Some(DoubleclickTrigger { key: Key(0x126), ms: 400 });
            &&& raw is None ==> g.trigger == usual && g.auto_detect_steam_games && g.haptic_on
                == g.haptic_off
            &&& raw matches Some(r) ==> {
                &&& r.trigger is None ==> g.trigger == usual
                &&& r.trigger matches Some(t) ==> {
                    &&& t.key@ == "disabled"@ ==> g.trigger is None
                    &&& t.key@ != "disabled"@ ==> (g.trigger matches Some(d) ==> {
                        &&& key_of_name(
                            if aliases.contains_key(t.key@) {
                                aliases[t.key@]
                            } else {
                                t.key@
                            },
                        ) == Some(d.key)
                        &&& t.ms is None ==> d.ms == 400
                        &&& t.ms matches Some(ms) ==> d.ms == ms
                    })
                    &&& t.key@ != "disabled"@ && g.trigger is None ==> key_of_name(
                        if aliases.contains_key(t.key@) {
                            aliases[t.key@]
                        } else {
                            t.key@
                        },
                    ) is None
                }
                &&& r.auto_detect_steam_games is None ==> g.auto_detect_steam_games
                &&& r.auto_detect_steam_games matches Some(on) ==> g.auto_detect_steam_games == on
                &&& r.haptic_on matches Some(chain) ==> g.haptic_on == chain@
                &&& r.haptic_off matches Some(chain) ==> g.haptic_off == chain@
                &&& r.haptic_on is None ==> g.haptic_on == gaming_mode_of(None, aliases).haptic_on
                &&& r.haptic_off is None ==> g.haptic_off == gaming_mode_of(
                    None,
                    aliases,
                ).haptic_off
            }
        }),
{
}

/// Each side of the trackpad section is read into its own side, and the gesture
/// device is there only where it is asked for.
pub proof fn law_trackpad_sides_stay_apart(raw: RawTrackpadConfig, t: TrackpadConfig)
    requires
        is_trackpad_of(raw, t),
    ensures
        raw.left matches Some(s) ==> t.left.handler_config@ == s.table@ && (
        s.click_pressure is None <==> t.left.click_pressure is None) && (
        s.click_pressure matches Some(p) ==> (0 <= p < 0x1_0000 ==> t.left.click_pressure == Some(
            p as u16,
        ))) && (s.kde matches Some(k) ==> t.left.kde_config@ == k@) && (
        s.mode matches Some(m) ==> t.left.mode@ == lowercase(trimmed(m@))) && (
        s.mode is None ==> t.left.mode@ == "disabled"@),
        raw.right matches Some(s) ==> t.right.handler_config@ == s.table@ && (
        s.click_pressure is None <==> t.right.click_pressure is None) && (
        s.click_pressure matches Some(p) ==> (0 <= p < 0x1_0000 ==> t.right.click_pressure == Some(
            p as u16,
        ))) && (s.kde matches Some(k) ==> t.right.kde_config@ == k@) && (
        s.mode matches Some(m) ==> t.right.mode@ == lowercase(trimmed(m@))) && (
        s.mode is None ==> t.right.mode@ == "disabled"@),
        raw.left is None ==> t.left.mode@ == "disabled"@ && t.left.click_pressure is None
            && t.left.handler_config@.len() == 0 && t.left.kde_config@.len() == 0,
        raw.right is None ==> t.right.mode@ == "disabled"@ && t.right.click_pressure is None
            && t.right.handler_config@.len() == 0 && t.right.kde_config@.len() == 0,
        t.combined_gesture_device <==> raw.combined_gesture_device == Some(true),
        raw.gestures matches Some(g) ==> t.gesture_handler_config@ == g.table@ && (
        g.kde matches Some(k) ==> t.gesture_kde_config@ == k@),
        raw.gestures is None ==> t.gesture_handler_config@.len() == 0
            && t.gesture_kde_config@.len() == 0,
{
}

/// A device is a Steam controller where its class says `hid-steam`, and an
/// ordinary one otherwise; its names are those that are declared.
pub proof fn law_device_class_is_read(d: RawDeviceDeclaration)
    ensures
        device_of(None) is None,
        d.class@ == "hid-steam"@ ==> device_of(Some(d)) == Some((DeviceClass::HidSteam, d.names@)),
        d.class@ != "hid-steam"@ ==> device_of(Some(d)) == Some((DeviceClass::Evdev, d.names@)),
{
}

} // verus!
