//! Configurations: what buttons are bound to, and how configurations build on
//! each other.

use crate::event::{canonical, canonical_list, copy_list, has_event, Combo, Event, Key, Relative};
use crate::haptics::{HapticChain, HapticChainStep, HapticPulse};
use crate::keyed::{KeyedList, Replicate};
use crate::text::{contains_text, copy_text, copy_texts, occurs, same_text};
use vstd::prelude::*;

verus! {

/// A table of texts by name.
pub type TextTable = KeyedList<String, String>;

/// A table by combo.
pub type ComboTable<V> = KeyedList<Combo, V>;

/// A set of combos.
pub type ComboSet = KeyedList<Combo, ()>;

/// The model of a combo: its trigger and what is held.
pub type ComboView = (Event, Seq<Event>);

// ── Devices and modules ──────────────────────────────────────────────────────

/// Which hardware class a base configuration targets.
#[derive(Debug, Clone, Copy, PartialEq, Eq, Structural)]
pub enum DeviceClass {
    HidSteam,
    Evdev,
}

/// The hardware that a base configuration is for.
#[derive(Debug, Clone, PartialEq, Eq)]
pub struct DeviceDeclaration {
    pub class: DeviceClass,
    /// Parts of device names; one of them has to occur in a device's name.
    pub names: Vec<String>,
}

/// Whether one of `names` occurs in a device's name.
pub open spec fn device_matches(names: Seq<String>, evdev_name: Seq<char>) -> bool {
    exists|i: int| 0 <= i < names.len() && occurs(evdev_name, (#[trigger] names[i])@)
}

impl DeviceDeclaration {
    /// Whether the device called `evdev_name` is meant.
    pub fn matches_evdev_name(&self, evdev_name: &str) -> (r: bool)
        ensures
            r == device_matches(self.names@, evdev_name@),
    {
        let mut i: usize = 0;
        while i < self.names.len()
            invariant
                i <= self.names@.len(),
                forall|j: int|
                    0 <= j < i ==> !occurs(evdev_name@, (#[trigger] self.names@[j])@),
            decreases self.names@.len() - i,
        {
            if contains_text(evdev_name, self.names[i].as_str()) {
                return true;
            }
            i = i + 1;
        }
        false
    }

    pub fn copy(&self) -> (r: DeviceDeclaration)
        ensures
            r.class == self.class,
            r.names@ == self.names@,
    {
        DeviceDeclaration { class: self.class, names: copy_texts(&self.names) }
    }
}

/// When a module applies. Meaningful for files without a device section.
#[derive(Debug, Clone, PartialEq, Eq)]
pub struct ModuleMetadata {
    /// Only active while this compositor is running.
    pub requires_compositor: Option<String>,
    /// Applied while the focused window's class is one of these.
    pub match_window_class: Option<Vec<String>>,
    /// Of the modules that name one group, one is active at a time.
    pub exclusive_group: Option<String>,
    /// Applied only while this layout is active.
    pub layout: u16,
}

/// What a module's conditions are, without their representation.
#[verifier::ext_equal]
pub struct ModuleView {
    pub requires_compositor: Option<String>,
    pub match_window_class: Option<Seq<String>>,
    pub exclusive_group: Option<String>,
    pub layout: u16,
}

impl View for ModuleMetadata {
    type V = ModuleView;

    open spec fn view(&self) -> ModuleView {
        ModuleView {
            requires_compositor: self.requires_compositor,
            match_window_class: match self.match_window_class {
                Some(v) => Some(v@),
                None => None,
            },
            exclusive_group: self.exclusive_group,
            layout: self.layout,
        }
    }
}

impl Default for ModuleMetadata {
    fn default() -> (r: Self)
        ensures
            r.requires_compositor is None,
            r.match_window_class is None,
            r.exclusive_group is None,
            r.layout == 0,
    {
        ModuleMetadata {
            requires_compositor: None,
            match_window_class: None,
            exclusive_group: None,
            layout: 0,
        }
    }
}

impl ModuleMetadata {
    pub fn copy(&self) -> (r: ModuleMetadata)
        ensures
            r@ == self@,
    {
        ModuleMetadata {
            requires_compositor: copy_text(&self.requires_compositor),
            match_window_class: match &self.match_window_class {
                Some(v) => Some(copy_texts(v)),
                None => None,
            },
            exclusive_group: copy_text(&self.exclusive_group),
            layout: self.layout,
        }
    }
}

// ── Trackpads ────────────────────────────────────────────────────────────────

/// One trackpad side.
#[derive(Debug, Clone, PartialEq, Eq)]
pub struct TrackpadSideConfig {
    /// Which handler runs: `disabled`, `mt-trackpad`, `trackball`, `scroll`.
    pub mode: String,
    /// Click pressure threshold for the firmware; none keeps the firmware's.
    pub click_pressure: Option<u16>,
    /// The side's whole table, in TOML notation, for the handler to read.
    pub handler_config: String,
    /// The side's desktop defaults, in TOML notation.
    pub kde_config: String,
}

impl Default for TrackpadSideConfig {
    fn default() -> (r: Self)
        ensures
            r@ == default_side(),
    {
        TrackpadSideConfig {
            mode: "disabled".to_owned(),
            click_pressure: None,
            handler_config: String::new(),
            kde_config: String::new(),
        }
    }
}

impl TrackpadSideConfig {
    pub fn copy(&self) -> (r: TrackpadSideConfig)
        ensures
            r == *self,
    {
        TrackpadSideConfig {
            mode: self.mode.clone(),
            click_pressure: self.click_pressure,
            handler_config: self.handler_config.clone(),
            kde_config: self.kde_config.clone(),
        }
    }
}

/// Both trackpad sides and the gesture device that combines them.
#[derive(Debug, Clone, PartialEq, Eq)]
pub struct TrackpadConfig {
    pub left: TrackpadSideConfig,
    pub right: TrackpadSideConfig,
    /// Whether a third device takes over while both pads are touched.
    pub combined_gesture_device: bool,
    /// The gesture table, in TOML notation, for the gesture handler to read.
    pub gesture_handler_config: String,
    /// The gesture device's desktop defaults, in TOML notation.
    pub gesture_kde_config: String,
}

/// One trackpad side, without its representation.
#[verifier::ext_equal]
pub struct TrackpadSideView {
    pub mode: Seq<char>,
    pub click_pressure: Option<u16>,
    pub handler_config: Seq<char>,
    pub kde_config: Seq<char>,
}

impl View for TrackpadSideConfig {
    type V = TrackpadSideView;

    open spec fn view(&self) -> TrackpadSideView {
        TrackpadSideView {
            mode: self.mode@,
            click_pressure: self.click_pressure,
            handler_config: self.handler_config@,
            kde_config: self.kde_config@,
        }
    }
}

/// Both trackpad sides and the gesture device, without their representation.
#[verifier::ext_equal]
pub struct TrackpadView {
    pub left: TrackpadSideView,
    pub right: TrackpadSideView,
    pub combined_gesture_device: bool,
    pub gesture_handler_config: Seq<char>,
    pub gesture_kde_config: Seq<char>,
}

impl View for TrackpadConfig {
    type V = TrackpadView;

    open spec fn view(&self) -> TrackpadView {
        TrackpadView {
            left: self.left@,
            right: self.right@,
            combined_gesture_device: self.combined_gesture_device,
            gesture_handler_config: self.gesture_handler_config@,
            gesture_kde_config: self.gesture_kde_config@,
        }
    }
}

/// A side that nothing was said about.
pub open spec fn default_side() -> TrackpadSideView {
    TrackpadSideView {
        mode: "disabled"@,
        click_pressure: None,
        handler_config: Seq::empty(),
        kde_config: Seq::empty(),
    }
}

/// Trackpads that nothing was said about.
pub open spec fn default_trackpad() -> TrackpadView {
    TrackpadView {
        left: default_side(),
        right: default_side(),
        combined_gesture_device: false,
        gesture_handler_config: Seq::empty(),
        gesture_kde_config: Seq::empty(),
    }
}

/// Whether a trackpad configuration asks for nothing: both sides disabled.
pub open spec fn trackpad_unset(t: TrackpadView) -> bool {
    t.left.mode == "disabled"@ && t.right.mode == "disabled"@
}

impl Default for TrackpadConfig {
    fn default() -> (r: Self)
        ensures
            r@ == default_trackpad(),
    {
        TrackpadConfig {
            left: TrackpadSideConfig::default(),
            right: TrackpadSideConfig::default(),
            combined_gesture_device: false,
            gesture_handler_config: String::new(),
            gesture_kde_config: String::new(),
        }
    }
}

impl TrackpadConfig {
    pub fn copy(&self) -> (r: TrackpadConfig)
        ensures
            r == *self,
    {
        TrackpadConfig {
            left: self.left.copy(),
            right: self.right.copy(),
            combined_gesture_device: self.combined_gesture_device,
            gesture_handler_config: self.gesture_handler_config.clone(),
            gesture_kde_config: self.gesture_kde_config.clone(),
        }
    }
}

// ── Gaming mode ──────────────────────────────────────────────────────────────

/// The button whose double click switches gaming mode.
#[derive(Debug, Clone, Copy, PartialEq, Eq, Structural)]
pub struct DoubleclickTrigger {
    pub key: Key,
    /// Most milliseconds between the two presses.
    pub ms: u64,
}

/// Gaming mode settings.
#[derive(Debug, Clone, PartialEq, Eq)]
pub struct GamingModeConfig {
    /// The double-click trigger; none switches it off.
    pub trigger: Option<DoubleclickTrigger>,
    /// Played when gaming mode goes on.
    pub haptic_on: HapticChain,
    /// Played when gaming mode goes off.
    pub haptic_off: HapticChain,
    /// Whether running Steam games switch gaming mode.
    pub auto_detect_steam_games: bool,
}

/// Gaming mode settings, without their representation.
#[verifier::ext_equal]
pub struct GamingModeView {
    pub trigger: Option<DoubleclickTrigger>,
    pub haptic_on: Seq<HapticChainStep>,
    pub haptic_off: Seq<HapticChainStep>,
    pub auto_detect_steam_games: bool,
}

impl View for GamingModeConfig {
    type V = GamingModeView;

    open spec fn view(&self) -> GamingModeView {
        GamingModeView {
            trigger: self.trigger,
            haptic_on: self.haptic_on@,
            haptic_off: self.haptic_off@,
            auto_detect_steam_games: self.auto_detect_steam_games,
        }
    }
}

/// Two short pings, 150 ms apart.
pub open spec fn gaming_chain() -> Seq<HapticChainStep> {
    seq![
        HapticChainStep {
            pulse: HapticPulse { duration_us: 8000, interval_us: 8000, count: 1, gain_db: 0 },
            pause_ms: Some(150u64),
        },
        HapticChainStep {
            pulse: HapticPulse { duration_us: 8000, interval_us: 8000, count: 1, gain_db: 0 },
            pause_ms: None,
        },
    ]
}

/// The double-click trigger where none is configured.
pub open spec fn default_trigger() -> DoubleclickTrigger {
    DoubleclickTrigger { key: Key(0x126), ms: 400 }
}

/// Gaming mode where nothing is configured.
pub open spec fn default_gaming_mode() -> GamingModeView {
    GamingModeView {
        trigger: Some(default_trigger()),
        haptic_on: gaming_chain(),
        haptic_off: gaming_chain(),
        auto_detect_steam_games: true,
    }
}

fn two_pings() -> (r: HapticChain)
    ensures
        r@ == gaming_chain(),
{
    let pulse = HapticPulse { duration_us: 8000, interval_us: 8000, count: 1, gain_db: 0 };
    let mut steps: Vec<HapticChainStep> = Vec::new();
    steps.push(HapticChainStep { pulse, pause_ms: Some(150) });
    steps.push(HapticChainStep { pulse, pause_ms: None });
    let r = HapticChain::Chain(steps);
    assert(r@ =~= gaming_chain());
    r
}

impl Default for GamingModeConfig {
    fn default() -> (r: Self)
        ensures
            r@ == default_gaming_mode(),
    {
        GamingModeConfig {
            trigger: Some(DoubleclickTrigger { key: Key(crate::event::BTN_BASE), ms: 400 }),
            haptic_on: two_pings(),
            haptic_off: two_pings(),
            auto_detect_steam_games: true,
        }
    }
}

impl GamingModeConfig {
    pub fn copy(&self) -> (r: GamingModeConfig)
        ensures
            r@ == self@,
    {
        GamingModeConfig {
            trigger: self.trigger,
            haptic_on: self.haptic_on.copy(),
            haptic_off: self.haptic_off.copy(),
            auto_detect_steam_games: self.auto_detect_steam_games,
        }
    }
}

// ── Bindings ─────────────────────────────────────────────────────────────────

/// A resolved hint: what to show, and where the line was written.
#[derive(Debug, Clone, PartialEq, Eq)]
pub struct Hint {
    pub label: String,
    /// Whether the line stands in the application's own configuration.
    pub from_override: bool,
}

impl View for Hint {
    type V = (Seq<char>, bool);

    open spec fn view(&self) -> (Seq<char>, bool) {
        (self.label@, self.from_override)
    }
}

impl Replicate for Hint {
    fn replicate(&self) -> (r: Self) {
        Hint { label: self.label.clone(), from_override: self.from_override }
    }
}

/// What buttons are bound to.
#[derive(Debug, PartialEq, Eq)]
pub struct Bindings {
    pub remap: ComboTable<Vec<Key>>,
    pub commands: ComboTable<Vec<String>>,
    pub movements: ComboTable<Relative>,
    /// Combos that act even while paused.
    pub no_pause: ComboSet,
    /// Combos that act even in gaming mode.
    pub while_gaming: ComboSet,
    /// What a combo is called on the display.
    pub labels: ComboTable<String>,
    /// Combos whose outputs the display does not announce.
    pub silent: ComboSet,
    /// The hints as written: shortcut to label.
    pub hints: TextTable,
    /// The hints on the buttons that they belong to.
    pub hints_resolved: ComboTable<Hint>,
}

/// Bindings as finite maps and sets.
#[verifier::ext_equal]
pub struct BindingsView {
    pub remap: Map<ComboView, Seq<Key>>,
    pub commands: Map<ComboView, Seq<String>>,
    pub movements: Map<ComboView, Relative>,
    pub no_pause: Set<ComboView>,
    pub while_gaming: Set<ComboView>,
    pub labels: Map<ComboView, Seq<char>>,
    pub silent: Set<ComboView>,
    pub hints: Map<Seq<char>, Seq<char>>,
    pub hints_resolved: Map<ComboView, (Seq<char>, bool)>,
}

impl View for Bindings {
    type V = BindingsView;

    open spec fn view(&self) -> BindingsView {
        BindingsView {
            remap: self.remap@,
            commands: self.commands@,
            movements: self.movements@,
            no_pause: self.no_pause@.dom(),
            while_gaming: self.while_gaming@.dom(),
            labels: self.labels@,
            silent: self.silent@.dom(),
            hints: self.hints@,
            hints_resolved: self.hints_resolved@,
        }
    }
}

/// No bindings at all.
pub open spec fn no_bindings() -> BindingsView {
    BindingsView {
        remap: Map::empty(),
        commands: Map::empty(),
        movements: Map::empty(),
        no_pause: Set::empty(),
        while_gaming: Set::empty(),
        labels: Map::empty(),
        silent: Set::empty(),
        hints: Map::empty(),
        hints_resolved: Map::empty(),
    }
}

impl Default for Bindings {
    fn default() -> (r: Self)
        ensures
            r@ == no_bindings(),
    {
        Bindings {
            remap: KeyedList::new(),
            commands: KeyedList::new(),
            movements: KeyedList::new(),
            no_pause: KeyedList::new(),
            while_gaming: KeyedList::new(),
            labels: KeyedList::new(),
            silent: KeyedList::new(),
            hints: KeyedList::new(),
            hints_resolved: KeyedList::new(),
        }
    }
}

impl Clone for Bindings {
    fn clone(&self) -> (r: Self)
        ensures
            r@ == self@,
            r.remap.items() == self.remap.items(),
            r.commands.items() == self.commands.items(),
            r.movements.items() == self.movements.items(),
    {
        Bindings {
            remap: self.remap.clone(),
            commands: self.commands.clone(),
            movements: self.movements.clone(),
            no_pause: self.no_pause.clone(),
            while_gaming: self.while_gaming.clone(),
            labels: self.labels.clone(),
            silent: self.silent.clone(),
            hints: self.hints.clone(),
            hints_resolved: self.hints_resolved.clone(),
        }
    }
}

/// The modifier events of a configuration.
#[derive(Debug, Clone, PartialEq, Eq)]
pub struct MappedModifiers {
    pub default: Vec<Event>,
    pub custom: Vec<Event>,
    pub all: Vec<Event>,
}

impl Default for MappedModifiers {
    fn default() -> (r: Self)
        ensures
            r.default@ == Seq::<Event>::empty(),
            r.custom@ == Seq::<Event>::empty(),
            r.all@ == Seq::<Event>::empty(),
    {
        MappedModifiers { default: Vec::new(), custom: Vec::new(), all: Vec::new() }
    }
}

impl MappedModifiers {
    pub fn copy(&self) -> (r: MappedModifiers)
        ensures
            r.default@ == self.default@,
            r.custom@ == self.custom@,
            r.all@ == self.all@,
    {
        MappedModifiers {
            default: copy_list(&self.default),
            custom: copy_list(&self.custom),
            all: copy_list(&self.all),
        }
    }
}

// ── Configurations ───────────────────────────────────────────────────────────

/// A configuration, read from one file or merged from several.
#[derive(Debug, PartialEq, Eq)]
pub struct Config {
    pub name: String,
    pub bindings: Bindings,
    /// The configuration's own bindings, from before a base was merged in.
    pub override_bindings: Option<Bindings>,
    pub settings: TextTable,
    pub mapped_modifiers: MappedModifiers,
    pub trackpad: TrackpadConfig,
    pub gaming_mode_config: GamingModeConfig,
    /// The device, in base configurations.
    pub device: Option<DeviceDeclaration>,
    pub module: ModuleMetadata,
    /// Modules that the file asks for by name.
    pub module_includes: Vec<String>,
    /// The button aliases that were in effect while the file was read.
    pub aliases: TextTable,
}

/// A configuration, without its representation.
#[verifier::ext_equal]
pub struct ConfigView {
    pub name: Seq<char>,
    pub bindings: BindingsView,
    pub override_bindings: Option<BindingsView>,
    pub settings: Map<Seq<char>, Seq<char>>,
    pub default_modifiers: Seq<Event>,
    pub custom_modifiers: Seq<Event>,
    pub all_modifiers: Seq<Event>,
    pub trackpad: TrackpadView,
    pub gaming_mode_config: GamingModeView,
    pub device: Option<(DeviceClass, Seq<String>)>,
    pub module: ModuleView,
    pub module_includes: Seq<String>,
    pub aliases: Map<Seq<char>, Seq<char>>,
}

impl View for Config {
    type V = ConfigView;

    open spec fn view(&self) -> ConfigView {
        ConfigView {
            name: self.name@,
            bindings: self.bindings@,
            override_bindings: match self.override_bindings {
                Some(b) => Some(b@),
                None => None,
            },
            settings: self.settings@,
            default_modifiers: self.mapped_modifiers.default@,
            custom_modifiers: self.mapped_modifiers.custom@,
            all_modifiers: self.mapped_modifiers.all@,
            trackpad: self.trackpad@,
            gaming_mode_config: self.gaming_mode_config@,
            device: match self.device {
                Some(d) => Some((d.class, d.names@)),
                None => None,
            },
            module: self.module@,
            module_includes: self.module_includes@,
            aliases: self.aliases@,
        }
    }
}

impl Clone for Config {
    fn clone(&self) -> (r: Self)
        ensures
            r@ == self@,
    {
        Config {
            name: self.name.clone(),
            bindings: self.bindings.clone(),
            override_bindings: match &self.override_bindings {
                Some(b) => Some(b.clone()),
                None => None,
            },
            settings: self.settings.clone(),
            mapped_modifiers: self.mapped_modifiers.copy(),
            trackpad: self.trackpad.copy(),
            gaming_mode_config: self.gaming_mode_config.copy(),
            device: match &self.device {
                Some(d) => Some(d.copy()),
                None => None,
            },
            module: self.module.copy(),
            module_includes: copy_texts(&self.module_includes),
            aliases: self.aliases.clone(),
        }
    }
}

/// The configuration of a name that says nothing.
pub open spec fn empty_config(name: Seq<char>) -> ConfigView {
    ConfigView {
        name,
        bindings: no_bindings(),
        override_bindings: None,
        settings: Map::empty(),
        default_modifiers: Seq::empty(),
        custom_modifiers: Seq::empty(),
        all_modifiers: Seq::empty(),
        trackpad: default_trackpad(),
        gaming_mode_config: default_gaming_mode(),
        device: None,
        module: ModuleView {
            requires_compositor: None,
            match_window_class: None,
            exclusive_group: None,
            layout: 0,
        },
        module_includes: Seq::empty(),
        aliases: Map::empty(),
    }
}

// ── Merging ──────────────────────────────────────────────────────────────────

/// The combos that `own` binds to anything.
pub open spec fn bound(own: BindingsView) -> Set<ComboView> {
    own.remap.dom() + own.commands.dom() + own.movements.dom()
}

/// `own` on top of `base`. A combo that `own` binds is bound by `own` alone:
/// whatever kind of action `base` has there is gone, with its label and its
/// silence. Where `own` itself binds a combo twice, a movement goes before a
/// command and a command before a remap.
pub open spec fn merged_bindings(own: BindingsView, base: BindingsView) -> BindingsView {
    BindingsView {
        remap: base.remap.union_prefer_right(own.remap).remove_keys(
            own.commands.dom() + own.movements.dom(),
        ),
        commands: base.commands.remove_keys(own.remap.dom()).union_prefer_right(
            own.commands,
        ).remove_keys(own.movements.dom()),
        movements: base.movements.remove_keys(
            own.remap.dom() + own.commands.dom(),
        ).union_prefer_right(own.movements),
        no_pause: base.no_pause + own.no_pause,
        while_gaming: base.while_gaming + own.while_gaming,
        labels: base.labels.remove_keys(bound(own)).union_prefer_right(own.labels),
        silent: base.silent.difference(bound(own)) + own.silent,
        hints: base.hints.union_prefer_right(own.hints),
        hints_resolved: base.hints_resolved,
    }
}

/// `own` with those members of `more` behind it that it lacks.
pub open spec fn with_missing(own: Seq<Event>, more: Seq<Event>) -> Seq<Event>
    decreases more.len(),
{
    if more.len() == 0 {
        own
    } else {
        let init = with_missing(own, more.drop_last());
        if init.contains(more.last()) {
            init
        } else {
            init.push(more.last())
        }
    }
}

/// `own` on top of `base`: the base fills in whatever `own` does not say.
/// Trackpads come from the base unless `own` sets one up; gaming mode always
/// does. Name, device, conditions and aliases stay those of `own`.
pub open spec fn merged(own: ConfigView, base: ConfigView) -> ConfigView {
    let default_modifiers = with_missing(own.default_modifiers, base.default_modifiers);
    let custom_modifiers = with_missing(own.custom_modifiers, base.custom_modifiers);
    ConfigView {
        bindings: merged_bindings(own.bindings, base.bindings),
        override_bindings: Some(own.bindings),
        settings: base.settings.union_prefer_right(own.settings),
        default_modifiers,
        custom_modifiers,
        all_modifiers: canonical(default_modifiers + custom_modifiers),
        trackpad: if trackpad_unset(own.trackpad) {
            base.trackpad
        } else {
            own.trackpad
        },
        gaming_mode_config: base.gaming_mode_config,
        ..own
    }
}

fn add_missing(own: &mut Vec<Event>, more: &Vec<Event>)
    ensures
        final(own)@ == with_missing(old(own)@, more@),
{
    let mut i: usize = 0;
    assert(more@.take(0) =~= Seq::<Event>::empty());
    while i < more.len()
        invariant
            i <= more@.len(),
            own@ == with_missing(old(own)@, more@.take(i as int)),
        decreases more@.len() - i,
    {
        if !has_event(own, more[i]) {
            own.push(more[i]);
        }
        i = i + 1;
        proof {
            assert(more@.take(i as int).drop_last() =~= more@.take(i - 1));
            assert(more@.take(i as int).last() == more@[i - 1]);
        }
    }
    assert(more@.take(i as int) =~= more@);
}

/// The default and custom modifiers as one ascending list.
pub fn all_of(default: &Vec<Event>, custom: &Vec<Event>) -> (r: Vec<Event>)
    ensures
        r@ == canonical(default@ + custom@),
{
    let mut both: Vec<Event> = copy_list(default);
    let mut i: usize = 0;
    assert(default@ + custom@.take(0) =~= default@);
    while i < custom.len()
        invariant
            i <= custom@.len(),
            both@ == default@ + custom@.take(i as int),
        decreases custom@.len() - i,
    {
        both.push(custom[i]);
        i = i + 1;
        assert(default@ + custom@.take(i as int) =~= (default@ + custom@.take(i - 1)).push(
            custom@[i - 1],
        ));
    }
    assert(custom@.take(i as int) =~= custom@);
    canonical_list(&both)
}

impl Bindings {
    /// These bindings on top of `base`.
    pub fn merged_over(&self, base: &Bindings) -> (r: Bindings)
        ensures
            r@ == merged_bindings(self@, base@),
    {
        let mut m = base.clone();
        m.remap.insert_all(&self.remap);
        m.remap.remove_all(&self.commands);
        m.remap.remove_all(&self.movements);
        m.commands.remove_all(&self.remap);
        m.commands.insert_all(&self.commands);
        m.commands.remove_all(&self.movements);
        m.movements.remove_all(&self.remap);
        m.movements.remove_all(&self.commands);
        m.movements.insert_all(&self.movements);
        m.no_pause.insert_all(&self.no_pause);
        m.while_gaming.insert_all(&self.while_gaming);
        m.labels.remove_all(&self.remap);
        m.labels.remove_all(&self.commands);
        m.labels.remove_all(&self.movements);
        m.labels.insert_all(&self.labels);
        m.silent.remove_all(&self.remap);
        m.silent.remove_all(&self.commands);
        m.silent.remove_all(&self.movements);
        m.silent.insert_all(&self.silent);
        m.hints.insert_all(&self.hints);
        proof {
            let want = merged_bindings(self@, base@);
            assert(m@.remap =~= want.remap);
            assert(m@.commands =~= want.commands);
            assert(m@.movements =~= want.movements);
            assert(m@.no_pause =~= want.no_pause);
            assert(m@.while_gaming =~= want.while_gaming);
            assert(m@.labels =~= want.labels);
            assert(m@.silent =~= want.silent);
        }
        m
    }
}

impl Config {
    /// A configuration that says nothing.
    pub fn new_empty(file_name: String) -> (r: Config)
        ensures
            r@ == empty_config(file_name@),
            r.name == file_name,
    {
        Config {
            name: file_name,
            bindings: Bindings::default(),
            override_bindings: None,
            settings: KeyedList::new(),
            mapped_modifiers: MappedModifiers::default(),
            trackpad: TrackpadConfig::default(),
            gaming_mode_config: GamingModeConfig::default(),
            device: None,
            module: ModuleMetadata::default(),
            module_includes: Vec::new(),
            aliases: KeyedList::new(),
        }
    }

    /// Put this configuration on top of `base`.
    pub fn merge_base(&mut self, base: &Config)
        ensures
            final(self)@ == merged(old(self)@, base@),
    {
        let own = self.bindings.clone();
        self.bindings = own.merged_over(&base.bindings);
        self.override_bindings = Some(own);
        add_missing(&mut self.mapped_modifiers.default, &base.mapped_modifiers.default);
        add_missing(&mut self.mapped_modifiers.custom, &base.mapped_modifiers.custom);
        self.mapped_modifiers.all =
        all_of(&self.mapped_modifiers.default, &self.mapped_modifiers.custom);
        self.settings.insert_missing(&base.settings);
        if same_text(self.trackpad.left.mode.as_str(), "disabled") && same_text(
            self.trackpad.right.mode.as_str(),
            "disabled",
        ) {
            self.trackpad = base.trackpad.copy();
        }
        self.gaming_mode_config = base.gaming_mode_config.copy();
    }

    /// This configuration on top of `base`, as a new one.
    pub fn merged_with_base(&self, base: &Config) -> (r: Config)
        ensures
            r@ == merged(self@, base@),
    {
        let mut result = self.clone();
        result.merge_base(base);
        result
    }
}

// ── Laws ─────────────────────────────────────────────────────────────────────

/// What a combo does.
pub enum Deed {
    Moves(Relative),
    Runs(Seq<String>),
    Sends(Seq<Key>),
    Nothing,
}

/// What bindings make a combo do. A movement goes before a command and a
/// command before a remap.
pub open spec fn deed(b: BindingsView, c: ComboView) -> Deed {
    if b.movements.contains_key(c) {
        Deed::Moves(b.movements[c])
    } else if b.commands.contains_key(c) {
        Deed::Runs(b.commands[c])
    } else if b.remap.contains_key(c) {
        Deed::Sends(b.remap[c])
    } else {
        Deed::Nothing
    }
}

/// Whether a combo does only one kind of thing.
pub open spec fn unambiguous(b: BindingsView, c: ComboView) -> bool {
    &&& b.movements.contains_key(c) ==> !b.commands.contains_key(c) && !b.remap.contains_key(c)
    &&& b.commands.contains_key(c) ==> !b.remap.contains_key(c)
}

/// A combo that the upper configuration binds does what that says and nothing
/// else; any other does what the lower one says.
pub proof fn law_upper_binding_decides(own: BindingsView, base: BindingsView, c: ComboView)
    ensures
        bound(own).contains(c) ==> deed(merged_bindings(own, base), c) == deed(own, c)
            && unambiguous(merged_bindings(own, base), c),
        !bound(own).contains(c) ==> deed(merged_bindings(own, base), c) == deed(base, c),
        bound(merged_bindings(own, base)).contains(c) <==> bound(own).contains(c) || bound(
            base,
        ).contains(c),
{
    let m = merged_bindings(own, base);
    assert(m.remap.contains_key(c) <==> ((base.remap.contains_key(c) || own.remap.contains_key(c))
        && !own.commands.contains_key(c) && !own.movements.contains_key(c)));
    assert(m.commands.contains_key(c) <==> ((base.commands.contains_key(c)
        && !own.remap.contains_key(c) || own.commands.contains_key(c))
        && !own.movements.contains_key(c)));
    assert(m.movements.contains_key(c) <==> (base.movements.contains_key(c)
        && !own.remap.contains_key(c) && !own.commands.contains_key(c)
        || own.movements.contains_key(c)));
}

/// A label or a silence of the lower configuration does not stick to a combo
/// that the upper one binds anew.
pub proof fn law_labels_do_not_leak(own: BindingsView, base: BindingsView, c: ComboView)
    requires
        bound(own).contains(c),
    ensures
        merged_bindings(own, base).labels.contains_key(c) == own.labels.contains_key(c),
        own.labels.contains_key(c) ==> merged_bindings(own, base).labels[c] == own.labels[c],
        merged_bindings(own, base).silent.contains(c) == own.silent.contains(c),
{
}

proof fn lemma_with_missing(own: Seq<Event>, more: Seq<Event>)
    ensures
        forall|e: Event| #[trigger]
            with_missing(own, more).contains(e) <==> own.contains(e) || more.contains(e),
    decreases more.len(),
{
    if more.len() > 0 {
        let init = with_missing(own, more.drop_last());
        lemma_with_missing(own, more.drop_last());
        assert forall|e: Event| #[trigger]
            with_missing(own, more).contains(e) <==> own.contains(e) || more.contains(e) by {
            assert(init.contains(e) <==> own.contains(e) || more.drop_last().contains(e));
            if more.contains(e) {
                let i = choose|i: int| 0 <= i < more.len() && more[i] == e;
                if i < more.len() - 1 {
                    assert(more.drop_last()[i] == e);
                }
            }
            if more.drop_last().contains(e) {
                let i = choose|i: int|
                    0 <= i < more.drop_last().len() && more.drop_last()[i] == e;
                assert(more[i] == e);
            }
            assert(more[more.len() - 1] == more.last());
            if !init.contains(more.last()) {
                let all = init.push(more.last());
                assert(all[init.len() as int] == more.last());
                if init.contains(e) {
                    let i = choose|i: int| 0 <= i < init.len() && init[i] == e;
                    assert(all[i] == e);
                }
                if all.contains(e) {
                    let i = choose|i: int| 0 <= i < all.len() && all[i] == e;
                    if i < init.len() {
                        assert(init[i] == e);
                    }
                }
            }
        }
    } else {
        assert(forall|e: Event| !more.contains(e));
    }
}

/// No modifier is lost in a merge: those of both configurations are among all
/// modifiers of the result, in ascending order and each once, and no others.
pub proof fn law_modifiers_survive(own: ConfigView, base: ConfigView)
    ensures
        crate::order::ascending::<Event>(merged(own, base).all_modifiers),
        forall|e: Event| #[trigger]
            merged(own, base).all_modifiers.contains(e) <==> own.default_modifiers.contains(e)
                || own.custom_modifiers.contains(e) || base.default_modifiers.contains(e)
                || base.custom_modifiers.contains(e),
{
    let d = with_missing(own.default_modifiers, base.default_modifiers);
    let c = with_missing(own.custom_modifiers, base.custom_modifiers);
    lemma_with_missing(own.default_modifiers, base.default_modifiers);
    lemma_with_missing(own.custom_modifiers, base.custom_modifiers);
    crate::order::lemma_arrange::<Event>(d + c);
    assert forall|e: Event| #[trigger]
        merged(own, base).all_modifiers.contains(e) <==> own.default_modifiers.contains(e)
            || own.custom_modifiers.contains(e) || base.default_modifiers.contains(e)
            || base.custom_modifiers.contains(e) by {
        assert(canonical(d + c).contains(e) <==> (d + c).contains(e));
        if (d + c).contains(e) {
            let i = choose|i: int| 0 <= i < (d + c).len() && (d + c)[i] == e;
            if i < d.len() {
                assert(d[i] == e);
            } else {
                assert(c[i - d.len()] == e);
            }
        }
        if d.contains(e) {
            let i = choose|i: int| 0 <= i < d.len() && d[i] == e;
            assert((d + c)[i] == e);
        }
        if c.contains(e) {
            let i = choose|i: int| 0 <= i < c.len() && c[i] == e;
            assert((d + c)[i + d.len()] == e);
        }
        assert(d.contains(e) <==> own.default_modifiers.contains(e)
            || base.default_modifiers.contains(e));
        assert(c.contains(e) <==> own.custom_modifiers.contains(e)
            || base.custom_modifiers.contains(e));
    }
}

/// What a configuration says itself outlasts a merge, and what it does not say
/// comes from below: settings, hints, trackpads and gaming mode.
pub proof fn law_own_word_stands(own: ConfigView, base: ConfigView, key: Seq<char>)
    ensures
        own.settings.contains_key(key) ==> merged(own, base).settings[key] == own.settings[key],
        !own.settings.contains_key(key) && base.settings.contains_key(key) ==> merged(
            own,
            base,
        ).settings[key] == base.settings[key],
        own.bindings.hints.contains_key(key) ==> merged(own, base).bindings.hints[key]
            == own.bindings.hints[key],
        !own.bindings.hints.contains_key(key) && base.bindings.hints.contains_key(key) ==> merged(
            own,
            base,
        ).bindings.hints[key] == base.bindings.hints[key],
        !trackpad_unset(own.trackpad) ==> merged(own, base).trackpad == own.trackpad,
        trackpad_unset(own.trackpad) ==> merged(own, base).trackpad == base.trackpad,
        merged(own, base).gaming_mode_config == base.gaming_mode_config,
        merged(own, base).name == own.name,
        merged(own, base).device == own.device,
        merged(own, base).module == own.module,
{
}

proof fn lemma_nothing_missing(own: Seq<Event>, more: Seq<Event>)
    requires
        forall|e: Event| #[trigger] more.contains(e) ==> own.contains(e),
    ensures
        with_missing(own, more) == own,
    decreases more.len(),
{
    if more.len() > 0 {
        let init = more.drop_last();
        assert forall|e: Event| #[trigger] init.contains(e) implies own.contains(e) by {
            let i = choose|i: int| 0 <= i < init.len() && init[i] == e;
            assert(more[i] == e);
            assert(more.contains(e));
        }
        lemma_nothing_missing(own, init);
        assert(more[more.len() - 1] == more.last());
        assert(more.contains(more.last()));
    }
}

/// Merging the same base again changes nothing, but that what was merged counts
/// as the configuration's own. The base binds no combo to two kinds of action,
/// unless the configuration binds it itself.
pub proof fn law_merging_again_changes_nothing(own: ConfigView, base: ConfigView)
    requires
        forall|c: ComboView|
            bound(own.bindings).contains(c) || #[trigger] unambiguous(base.bindings, c),
    ensures
        ({
            let once = merged(own, base);
            merged(once, base) == (ConfigView { override_bindings: Some(once.bindings), ..once })
        }),
{
    let o = own.bindings;
    let b = base.bindings;
    let once = merged(own, base);
    let m = once.bindings;
    let n = merged_bindings(m, b);
    assert forall|c: ComboView| #[trigger] unambiguous(m, c) by {
        law_upper_binding_decides(o, b, c);
        assert(bound(o).contains(c) || unambiguous(b, c));
    }
    assert forall|c: ComboView| #[trigger] n.remap.contains_key(c) <==> m.remap.contains_key(c) by {
        assert(unambiguous(m, c));
        assert(bound(o).contains(c) || unambiguous(b, c));
        law_upper_binding_decides(o, b, c);
        law_upper_binding_decides(m, b, c);
    }
    assert(n.remap =~= m.remap);
    assert forall|c: ComboView| #[trigger]
        n.commands.contains_key(c) <==> m.commands.contains_key(c) by {
        assert(unambiguous(m, c));
        assert(bound(o).contains(c) || unambiguous(b, c));
    }
    assert(n.commands =~= m.commands);
    assert forall|c: ComboView| #[trigger]
        n.movements.contains_key(c) <==> m.movements.contains_key(c) by {
        assert(unambiguous(m, c));
        assert(bound(o).contains(c) || unambiguous(b, c));
    }
    assert(n.movements =~= m.movements);
    assert forall|c: ComboView| #[trigger] bound(o).contains(c) implies bound(m).contains(c) by {
        law_upper_binding_decides(o, b, c);
    }
    assert(n.labels =~= m.labels);
    assert(n.silent =~= m.silent);
    assert(n.no_pause =~= m.no_pause);
    assert(n.while_gaming =~= m.while_gaming);
    assert(n.hints =~= m.hints);
    assert(base.settings.union_prefer_right(once.settings) =~= once.settings);
    lemma_with_missing(own.default_modifiers, base.default_modifiers);
    lemma_with_missing(own.custom_modifiers, base.custom_modifiers);
    lemma_nothing_missing(once.default_modifiers, base.default_modifiers);
    lemma_nothing_missing(once.custom_modifiers, base.custom_modifiers);
}

/// What each kind of action becomes when configurations are merged. A combo
/// that the upper one binds keeps that action alone, a movement before a command
/// before a remap; any other keeps every action of the lower one.
pub proof fn law_actions_of_a_merge(own: BindingsView, base: BindingsView, c: ComboView)
    ensures
        ({
            let m = merged_bindings(own, base);
            let moves = own.movements.contains_key(c);
            let runs = own.commands.contains_key(c);
            let sends = own.remap.contains_key(c);
            &&& moves ==> m.movements.contains_key(c) && m.movements[c] == own.movements[c]
                && !m.commands.contains_key(c) && !m.remap.contains_key(c)
            &&& runs && !moves ==> m.commands.contains_key(c) && m.commands[c] == own.commands[c]
                && !m.movements.contains_key(c) && !m.remap.contains_key(c)
            &&& sends && !runs && !moves ==> m.remap.contains_key(c) && m.remap[c] == own.remap[c]
                && !m.movements.contains_key(c) && !m.commands.contains_key(c)
            &&& !sends && !runs && !moves ==> {
                &&& m.remap.contains_key(c) == base.remap.contains_key(c)
                &&& base.remap.contains_key(c) ==> m.remap[c] == base.remap[c]
                &&& m.commands.contains_key(c) == base.commands.contains_key(c)
                &&& base.commands.contains_key(c) ==> m.commands[c] == base.commands[c]
                &&& m.movements.contains_key(c) == base.movements.contains_key(c)
                &&& base.movements.contains_key(c) ==> m.movements[c] == base.movements[c]
            }
        }),
{
}

/// The marks of both configurations are kept in a merge: what is not to pause
/// and what works while gaming is marked as soon as one of them says so. Labels
/// and silence of the lower one stay with the combos that the upper one does not
/// bind.
pub proof fn law_marks_of_a_merge(own: BindingsView, base: BindingsView, c: ComboView)
    ensures
        ({
            let m = merged_bindings(own, base);
            let rebound = own.movements.contains_key(c) || own.commands.contains_key(c)
                || own.remap.contains_key(c);
            &&& m.no_pause.contains(c) <==> own.no_pause.contains(c) || base.no_pause.contains(c)
            &&& m.while_gaming.contains(c) <==> own.while_gaming.contains(c)
                || base.while_gaming.contains(c)
            &&& m.silent.contains(c) <==> own.silent.contains(c) || (base.silent.contains(c)
                && !rebound)
            &&& m.labels.contains_key(c) <==> own.labels.contains_key(c) || (
            base.labels.contains_key(c) && !rebound)
            &&& own.labels.contains_key(c) ==> m.labels[c] == own.labels[c]
            &&& !own.labels.contains_key(c) && base.labels.contains_key(c) && !rebound
                ==> m.labels[c] == base.labels[c]
        }),
{
}

/// A merge remembers what the upper configuration brought itself, and takes its
/// trackpads as soon as one of the two sides is in use.
pub proof fn law_merge_remembers_the_upper(own: ConfigView, base: ConfigView)
    ensures
        merged(own, base).override_bindings == Some(own.bindings),
        merged(own, base).aliases == own.aliases,
        own.trackpad.left.mode != "disabled"@ || own.trackpad.right.mode != "disabled"@ ==> merged(
            own,
            base,
        ).trackpad == own.trackpad,
        own.trackpad.left.mode == "disabled"@ && own.trackpad.right.mode == "disabled"@ ==> merged(
            own,
            base,
        ).trackpad == base.trackpad,
{
}

/// A configuration that says nothing leaves the one below as it is, but for the
/// name and what a configuration has for itself.
pub proof fn law_empty_config_changes_nothing(name: Seq<char>, base: ConfigView)
    ensures
        merged(empty_config(name), base).bindings.remap == base.bindings.remap,
        merged(empty_config(name), base).bindings.commands == base.bindings.commands,
        merged(empty_config(name), base).bindings.movements == base.bindings.movements,
        merged(empty_config(name), base).bindings.labels == base.bindings.labels,
        merged(empty_config(name), base).bindings.silent == base.bindings.silent,
        merged(empty_config(name), base).bindings.no_pause == base.bindings.no_pause,
        merged(empty_config(name), base).bindings.while_gaming == base.bindings.while_gaming,
        merged(empty_config(name), base).bindings.hints == base.bindings.hints,
        merged(empty_config(name), base).settings == base.settings,
        merged(empty_config(name), base).trackpad == base.trackpad,
        merged(empty_config(name), base).gaming_mode_config == base.gaming_mode_config,
{
    let m = merged(empty_config(name), base);
    assert(m.bindings.remap =~= base.bindings.remap);
    assert(m.bindings.commands =~= base.bindings.commands);
    assert(m.bindings.movements =~= base.bindings.movements);
    assert(m.bindings.labels =~= base.bindings.labels);
    assert(m.bindings.silent =~= base.bindings.silent);
    assert(m.bindings.no_pause =~= base.bindings.no_pause);
    assert(m.bindings.while_gaming =~= base.bindings.while_gaming);
    assert(m.bindings.hints =~= base.bindings.hints);
    assert(m.settings =~= base.settings);
}

/// A declaration means every device in whose name one of its names occurs.
pub proof fn law_device_names_are_parts(
    names: Seq<String>,
    k: int,
    before: Seq<char>,
    after: Seq<char>,
)
    requires
        0 <= k < names.len(),
    ensures
        device_matches(names, before + names[k]@ + after),
{
    let name = before + names[k]@ + after;
    let rest = name.skip(before.len() as int);
    assert(rest.take(names[k]@.len() as int) =~= names[k]@);
    assert(crate::text::starts(rest, names[k]@));
    assert(occurs(name, names[k]@));
}

} // verus!
