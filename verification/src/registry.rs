//! The registry of all configuration files: which are active, and what they
//! give together for a window and a layout.

use crate::config::{device_matches, merged, BindingsView, Config, ConfigView};
use crate::conflicts::{
    bases, plain_modules, report_binding_conflicts, report_device_conflicts, with_base_warnings,
    with_module_warnings, with_warnings,
};
use crate::files::ConfigRoots;
use crate::groups::{
    apply_preferences, distinct_names, enable_member, group_members, in_group, members, preferred,
    remembered, remembered_member, with_member,
};
use crate::hints::resolved_hints;
use crate::keyed::{KeyedList, Label, Replicate};
use crate::layers::{
    copy_errors, could_run, entry_named, find_entry, is_plain, is_plain_module, layered,
    lemma_place_of, place_of, same_option, usable, usable_config, with_modules, ConfigEntry,
    ConfigError, EntryView,
};
use crate::loops::{change_active_layout, next_layout};
use crate::order::{arrange, arranged, views};
use crate::preferences::{
    group_switched, member_picked, module_switched, no_preferences, Preferences, PreferencesView,
};
use crate::session::{client_class, Client};
use crate::text::{
    copy_text, joined3, listed, lists, same_text, text_before, text_in, text_is_before,
};
use std::sync::Arc;
use vstd::prelude::*;

verus! {

// ── Entries by name ──────────────────────────────────────────────────────────

/// Entries with one more, in the place of the one of its name.
pub open spec fn with_entry(entries: Seq<EntryView>, e: EntryView) -> Seq<EntryView> {
    let i = place_of(entries, e.name);
    if i < entries.len() {
        entries.update(i, e)
    } else {
        entries.push(e)
    }
}

/// The entries of the files `read`, where a later file replaces an earlier one
/// of the same name.
pub open spec fn by_name(read: Seq<EntryView>) -> Seq<EntryView>
    decreases read.len(),
{
    if read.len() == 0 {
        Seq::empty()
    } else {
        with_entry(by_name(read.drop_last()), read.last())
    }
}

proof fn lemma_with_entry(entries: Seq<EntryView>, e: EntryView)
    requires
        distinct_names(entries),
    ensures
        distinct_names(with_entry(entries, e)),
{
    lemma_place_of(entries, e.name);
    let r = with_entry(entries, e);
    let p = place_of(entries, e.name);
    assert forall|i: int, j: int|
        #![trigger r[i], r[j]]
        0 <= i < r.len() && 0 <= j < r.len() && r[i].name == r[j].name implies i == j by {
        if p < entries.len() {
            assert(r[i].name == entries[i].name);
            assert(r[j].name == entries[j].name);
        } else {
            if i < entries.len() {
                assert(r[i] == entries[i]);
            }
            if j < entries.len() {
                assert(r[j] == entries[j]);
            }
        }
    }
}

/// Add an entry, in the place of the one of its name.
pub fn put_entry(entries: &mut Vec<ConfigEntry>, e: ConfigEntry)
    ensures
        views(final(entries)@) == with_entry(views(old(entries)@), e@),
{
    let ghost was = views(entries@);
    match find_entry(entries, e.name.as_str()) {
        Some(i) => {
            entries.set(i, e);
            assert(views(entries@) =~= was.update(i as int, e@));
        },
        None => {
            entries.push(e);
            assert(views(entries@) =~= was.push(e@));
        },
    }
}

fn entries_by_name(read: Vec<ConfigEntry>) -> (r: Vec<ConfigEntry>)
    ensures
        views(r@) == by_name(views(read@)),
        distinct_names(views(r@)),
{
    let ghost all = views(read@);
    let mut r: Vec<ConfigEntry> = Vec::new();
    let mut i: usize = 0;
    assert(views(r@) =~= by_name(all.take(0)));
    while i < read.len()
        invariant
            i <= read@.len(),
            all == views(read@),
            views(r@) == by_name(all.take(i as int)),
            distinct_names(views(r@)),
        decreases read@.len() - i,
    {
        proof {
            lemma_with_entry(views(r@), all[i as int]);
        }
        put_entry(&mut r, read[i].clone());
        i = i + 1;
        proof {
            assert(all.take(i as int).drop_last() =~= all.take(i - 1));
            assert(all.take(i as int).last() == all[i - 1]);
        }
    }
    assert(all.take(i as int) =~= all);
    r
}

/// The entry of a file: the configuration that was read, or what went wrong.
pub fn read_entry(name: String, from_user: bool, read: Result<Config, String>) -> (r: ConfigEntry)
    ensures
        r.name == name,
        r.from_user == from_user,
        match read {
            Ok(c) => r.config == Some(c) && r.enabled && r@.errors == Seq::<
                (Seq<char>, Seq<char>),
            >::empty(),
            Err(m) => r.config is None && !r.enabled && r@.errors == seq![("error"@, m@)],
        },
{
    match read {
        Ok(c) => {
            let r = ConfigEntry {
                name,
                config: Some(c),
                enabled: true,
                from_user,
                errors: Vec::new(),
            };
            assert(r@.errors =~= Seq::<(Seq<char>, Seq<char>)>::empty());
            r
        },
        Err(m) => {
            let mut errors: Vec<ConfigError> = Vec::new();
            errors.push(ConfigError { severity: "error", message: m });
            let r = ConfigEntry { name, config: None, enabled: false, from_user, errors };
            assert(r@.errors =~= seq![("error"@, m@)]);
            r
        },
    }
}

/// Entries with the warnings about files that get in each other's way.
pub open spec fn with_conflicts(entries: Seq<EntryView>) -> Seq<EntryView> {
    let s = plain_modules(entries);
    let first = with_module_warnings(entries, s, s.len() as int);
    let b = bases(first);
    with_base_warnings(first, b, b.len() as int)
}

/// The entries of the files `read`, in the order of reading: the shipped ones
/// first.
pub fn load_entries(read: Vec<ConfigEntry>) -> (r: Vec<ConfigEntry>)
    ensures
        views(r@) == with_conflicts(by_name(views(read@))),
        distinct_names(views(r@)),
{
    let mut entries: Vec<ConfigEntry> = entries_by_name(read);
    let ghost named = views(entries@);
    report_binding_conflicts(&mut entries);
    proof {
        let s = plain_modules(named);
        lemma_module_warnings_names(named, s, s.len() as int);
        lemma_same_names(named, views(entries@));
    }
    let ghost first = views(entries@);
    report_device_conflicts(&mut entries);
    proof {
        let b = bases(first);
        lemma_base_warnings_names(first, b, b.len() as int);
        lemma_same_names(first, views(entries@));
    }
    entries
}

/// Whether two lists of entries have the same names.
pub open spec fn same_names(a: Seq<EntryView>, b: Seq<EntryView>) -> bool {
    a.len() == b.len() && forall|i: int|
        #![trigger a[i]]
        #![trigger b[i]]
        0 <= i < a.len() ==> a[i].name == b[i].name
}

proof fn lemma_same_names(a: Seq<EntryView>, b: Seq<EntryView>)
    requires
        same_names(a, b),
        distinct_names(a),
    ensures
        distinct_names(b),
{
    assert forall|i: int, j: int|
        #![trigger b[i], b[j]]
        0 <= i < b.len() && 0 <= j < b.len() && b[i].name == b[j].name implies i == j by {
        assert(a[i].name == b[i].name);
        assert(a[j].name == b[j].name);
    }
}

proof fn lemma_with_warnings_names(
    entries: Seq<EntryView>,
    name: Seq<char>,
    warnings: Seq<Seq<char>>,
)
    ensures
        same_names(entries, with_warnings(entries, name, warnings)),
{
    lemma_place_of(entries, name);
}

proof fn lemma_module_warnings_names(
    entries: Seq<EntryView>,
    s: Seq<(bool, ConfigView)>,
    n: int,
)
    ensures
        same_names(entries, with_module_warnings(entries, s, n)),
    decreases n,
{
    if n > 0 {
        lemma_module_warnings_names(entries, s, n - 1);
        lemma_with_warnings_names(
            with_module_warnings(entries, s, n - 1),
            s[n - 1].1.name,
            crate::conflicts::module_warnings(s[n - 1], s.take(n - 1)),
        );
    }
}

proof fn lemma_base_warnings_names(entries: Seq<EntryView>, s: Seq<(bool, ConfigView)>, n: int)
    ensures
        same_names(entries, with_base_warnings(entries, s, n)),
    decreases n,
{
    if n > 0 {
        lemma_base_warnings_names(entries, s, n - 1);
        lemma_with_warnings_names(
            with_base_warnings(entries, s, n - 1),
            s[n - 1].1.name,
            crate::conflicts::base_warnings(s[n - 1].1, s.take(n - 1)),
        );
    }
}

// ── Resolving ────────────────────────────────────────────────────────────────

/// Whether a module is for a window class and a layout.
pub open spec fn for_class(c: ConfigView, class: Seq<char>, layout: u16) -> bool {
    &&& c.module.layout == layout
    &&& c.module.match_window_class matches Some(classes) && listed(classes, class)
}

/// Whether a module is for a layout, whatever the window.
pub open spec fn for_layout(c: ConfigView, layout: u16) -> bool {
    c.module.layout == layout && c.module.match_window_class is None && layout != 0
}

/// The first configuration that takes part and is for a class and a layout.
pub open spec fn module_for_class(
    entries: Seq<EntryView>,
    compositor: Option<Seq<char>>,
    class: Seq<char>,
    layout: u16,
) -> Option<ConfigView>
    decreases entries.len(),
{
    if entries.len() == 0 {
        None
    } else {
        match usable_config(entries[0], compositor) {
            Some(c) => if for_class(c, class, layout) {
                Some(c)
            } else {
                module_for_class(entries.drop_first(), compositor, class, layout)
            },
            None => module_for_class(entries.drop_first(), compositor, class, layout),
        }
    }
}

/// The first configuration that takes part and is for a layout alone.
pub open spec fn module_for_layout(
    entries: Seq<EntryView>,
    compositor: Option<Seq<char>>,
    layout: u16,
) -> Option<ConfigView>
    decreases entries.len(),
{
    if entries.len() == 0 {
        None
    } else {
        match usable_config(entries[0], compositor) {
            Some(c) => if for_layout(c, layout) {
                Some(c)
            } else {
                module_for_layout(entries.drop_first(), compositor, layout)
            },
            None => module_for_layout(entries.drop_first(), compositor, layout),
        }
    }
}

/// The module that applies: one for the window's class goes before one for the
/// layout alone.
pub open spec fn applying_module(
    entries: Seq<EntryView>,
    compositor: Option<Seq<char>>,
    class: Option<Seq<char>>,
    layout: u16,
) -> Option<ConfigView> {
    let by_class = match class {
        Some(c) => module_for_class(entries, compositor, c, layout),
        None => None,
    };
    match by_class {
        Some(c) => Some(c),
        None => module_for_layout(entries, compositor, layout),
    }
}

/// The base configuration of a name, where it takes part.
pub open spec fn base_named(
    entries: Seq<EntryView>,
    compositor: Option<Seq<char>>,
    name: Seq<char>,
) -> Option<ConfigView> {
    match entry_named(entries, name) {
        Some(e) => match usable_config(e, compositor) {
            Some(c) => if c.device is Some {
                Some(c)
            } else {
                None
            },
            None => None,
        },
        None => None,
    }
}

/// A configuration with its hints put on the buttons that they belong to.
pub open spec fn with_hints(c: ConfigView) -> ConfigView {
    ConfigView {
        bindings: BindingsView {
            hints_resolved: resolved_hints(c.bindings, c.override_bindings).resolved,
            ..c.bindings
        },
        ..c
    }
}

/// What is in effect for a base configuration, a window class and a layout:
/// the base with its modules, and on top of it the module that applies. A
/// layout other than the first needs a module.
pub open spec fn in_effect(
    entries: Seq<EntryView>,
    compositor: Option<Seq<char>>,
    base_name: Seq<char>,
    class: Option<Seq<char>>,
    layout: u16,
) -> Option<ConfigView> {
    match base_named(entries, compositor, base_name) {
        Some(raw) => {
            let base = layered(entries, raw, compositor);
            match applying_module(entries, compositor, class, layout) {
                Some(m) => Some(with_hints(merged(m, base))),
                None => if layout == 0 {
                    Some(with_hints(base))
                } else {
                    None
                },
            }
        },
        None => None,
    }
}

/// In which of the four layouts anything is in effect.
pub open spec fn layouts_there(
    entries: Seq<EntryView>,
    compositor: Option<Seq<char>>,
    base_name: Seq<char>,
    class: Option<Seq<char>>,
) -> Seq<bool> {
    Seq::new(
        4,
        |i: int| in_effect(entries, compositor, base_name, class, i as u16) is Some,
    )
}

fn find_for_class<'a>(
    entries: &'a Vec<ConfigEntry>,
    compositor: &Option<String>,
    class: &str,
    layout: u16,
) -> (r: Option<&'a Config>)
    ensures
        match r {
            Some(c) => module_for_class(views(entries@), text_in(*compositor), class@, layout)
                == Some(c@),
            None => module_for_class(
                views(entries@),
                text_in(*compositor),
                class@,
                layout,
            ) is None,
        },
{
    let ghost all = views(entries@);
    let ghost comp = text_in(*compositor);
    let mut i: usize = 0;
    assert(all.skip(0) =~= all);
    while i < entries.len()
        invariant
            i <= entries@.len(),
            all == views(entries@),
            comp == text_in(*compositor),
            module_for_class(all, comp, class@, layout) == module_for_class(
                all.skip(i as int),
                comp,
                class@,
                layout,
            ),
        decreases entries@.len() - i,
    {
        proof {
            assert(all.skip(i as int)[0] == entries@[i as int]@);
            assert(all.skip(i as int).drop_first() =~= all.skip(i + 1));
        }
        if let Some(c) = usable(&entries[i], compositor) {
            let matches: bool = match &c.module.match_window_class {
                Some(classes) => lists(classes, class),
                None => false,
            };
            if c.module.layout == layout && matches {
                return Some(c);
            }
        }
        i = i + 1;
    }
    None
}

fn find_for_layout<'a>(
    entries: &'a Vec<ConfigEntry>,
    compositor: &Option<String>,
    layout: u16,
) -> (r: Option<&'a Config>)
    ensures
        match r {
            Some(c) => module_for_layout(views(entries@), text_in(*compositor), layout) == Some(
                c@,
            ),
            None => module_for_layout(views(entries@), text_in(*compositor), layout) is None,
        },
{
    let ghost all = views(entries@);
    let ghost comp = text_in(*compositor);
    let mut i: usize = 0;
    assert(all.skip(0) =~= all);
    while i < entries.len()
        invariant
            i <= entries@.len(),
            all == views(entries@),
            comp == text_in(*compositor),
            module_for_layout(all, comp, layout) == module_for_layout(
                all.skip(i as int),
                comp,
                layout,
            ),
        decreases entries@.len() - i,
    {
        proof {
            assert(all.skip(i as int)[0] == entries@[i as int]@);
            assert(all.skip(i as int).drop_first() =~= all.skip(i + 1));
        }
        if let Some(c) = usable(&entries[i], compositor) {
            if c.module.layout == layout && c.module.match_window_class.is_none() && layout != 0 {
                return Some(c);
            }
        }
        i = i + 1;
    }
    None
}

/// What is in effect for a base configuration, a window class and a layout,
/// worked out from the entries.
pub fn resolve_uncached(
    entries: &Vec<ConfigEntry>,
    compositor: &Option<String>,
    base_name: &str,
    class: &Option<String>,
    layout: u16,
) -> (r: Option<Config>)
    ensures
        match r {
            Some(c) => in_effect(
                views(entries@),
                text_in(*compositor),
                base_name@,
                text_in(*class),
                layout,
            ) == Some(c@),
            None => in_effect(
                views(entries@),
                text_in(*compositor),
                base_name@,
                text_in(*class),
                layout,
            ) is None,
        },
{
    let at: usize = match find_entry(entries, base_name) {
        Some(i) => i,
        None => {
            return None;
        },
    };
    let raw: &Config = match usable(&entries[at], compositor) {
        Some(c) => c,
        None => {
            return None;
        },
    };
    if raw.device.is_none() {
        return None;
    }
    let base: Config = with_modules(entries, raw, compositor);
    let by_class: Option<&Config> = match class {
        Some(c) => find_for_class(entries, compositor, c.as_str(), layout),
        None => None,
    };
    let module: Option<&Config> = match by_class {
        Some(m) => Some(m),
        None => find_for_layout(entries, compositor, layout),
    };
    let mut result: Config = match module {
        Some(m) => m.merged_with_base(&base),
        None => {
            if layout != 0 {
                return None;
            }
            base
        },
    };
    let ghost before = result@;
    let _ = result.resolve_hints();
    assert(result@ =~= with_hints(before));
    Some(result)
}

// ── The registry ─────────────────────────────────────────────────────────────

/// What an answer depends on.
#[derive(Debug, Clone, PartialEq, Eq)]
pub struct ResolveKey {
    pub base_name: String,
    /// The class of the window, where a module names it.
    pub window_class: Option<String>,
    pub layout: u16,
}

/// What an answer depends on, without its representation.
pub type KeyView = (Seq<char>, Option<Seq<char>>, u16);

impl View for ResolveKey {
    type V = KeyView;

    open spec fn view(&self) -> KeyView {
        (self.base_name@, text_in(self.window_class), self.layout)
    }
}

impl Label for ResolveKey {
    fn same(&self, other: &Self) -> (r: bool) {
        same_text(self.base_name.as_str(), other.base_name.as_str()) && same_option(
            &self.window_class,
            &other.window_class,
        ) && self.layout == other.layout
    }

    fn replicate_label(&self) -> (r: Self) {
        ResolveKey {
            base_name: self.base_name.clone(),
            window_class: copy_text(&self.window_class),
            layout: self.layout,
        }
    }
}

/// An answer that was worked out. That there is none is an answer too.
#[derive(Debug)]
pub struct Answer {
    pub config: Option<Arc<Config>>,
}

impl View for Answer {
    type V = Option<ConfigView>;

    open spec fn view(&self) -> Option<ConfigView> {
        match self.config {
            Some(c) => Some((*c)@),
            None => None,
        }
    }
}

impl Replicate for Answer {
    fn replicate(&self) -> (r: Self) {
        Answer {
            config: match &self.config {
                Some(c) => Some(c.clone()),
                None => None,
            },
        }
    }
}

/// Whether every remembered answer is the one that would be worked out now.
pub open spec fn answers_hold(
    answers: Map<KeyView, Option<ConfigView>>,
    entries: Seq<EntryView>,
    compositor: Option<Seq<char>>,
) -> bool {
    forall|k: KeyView| #[trigger]
        answers.contains_key(k) ==> answers[k] == in_effect(entries, compositor, k.0, k.1, k.2)
}

/// All configuration files, which of them are active, and the answers that were
/// worked out from them.
pub struct ConfigRegistry {
    roots: ConfigRoots,
    entries: Vec<ConfigEntry>,
    /// The running compositor, once it is known.
    compositor: Option<String>,
    preferences: Preferences,
    resolved: KeyedList<ResolveKey, Answer>,
}

/// The registry, without its representation and its remembered answers.
#[verifier::ext_equal]
pub struct RegistryView {
    pub roots: ConfigRoots,
    pub entries: Seq<EntryView>,
    pub compositor: Option<Seq<char>>,
    pub preferences: PreferencesView,
}

impl View for ConfigRegistry {
    type V = RegistryView;

    closed spec fn view(&self) -> RegistryView {
        RegistryView {
            roots: self.roots,
            entries: views(self.entries@),
            compositor: text_in(self.compositor),
            preferences: self.preferences@,
        }
    }
}

/// What kind of file an entry is.
pub open spec fn kind_of(e: EntryView) -> Seq<char> {
    match e.config {
        None => "unknown"@,
        Some(c) => if c.device is Some {
            "base"@
        } else if c.module.match_window_class is Some {
            "app"@
        } else {
            "module"@
        },
    }
}

/// What kind of file an entry is.
pub fn entry_kind(entry: &ConfigEntry) -> (r: &'static str)
    ensures
        r@ == kind_of(entry@),
{
    match &entry.config {
        None => "unknown",
        Some(c) => if c.device.is_some() {
            "base"
        } else if c.module.match_window_class.is_some() {
            "app"
        } else {
            "module"
        },
    }
}

/// The first, by name, of all base configurations.
pub open spec fn first_base(entries: Seq<EntryView>) -> Option<Seq<char>>
    decreases entries.len(),
{
    if entries.len() == 0 {
        None
    } else {
        let before = first_base(entries.drop_last());
        match entries.last().config {
            Some(c) => if c.device is Some && (before is None || text_before(c.name, before->0)) {
                Some(c.name)
            } else {
                before
            },
            None => before,
        }
    }
}

/// The base configuration that a plain module is shown under.
pub open spec fn shown_under(entries: Seq<EntryView>, e: EntryView) -> Option<Seq<char>> {
    match e.config {
        Some(c) => if is_plain(c) {
            first_base(entries)
        } else {
            None
        },
        None => None,
    }
}

/// The base configuration that a plain module is shown under.
pub fn parent_of(entries: &Vec<ConfigEntry>, entry: &ConfigEntry) -> (r: Option<String>)
    ensures
        text_in(r) == shown_under(views(entries@), entry@),
{
    let plain: bool = match &entry.config {
        Some(c) => is_plain_module(c),
        None => false,
    };
    if !plain {
        return None;
    }
    let ghost all = views(entries@);
    let mut r: Option<String> = None;
    let mut i: usize = 0;
    assert(all.take(0) =~= Seq::<EntryView>::empty());
    while i < entries.len()
        invariant
            i <= entries@.len(),
            all == views(entries@),
            text_in(r) == first_base(all.take(i as int)),
        decreases entries@.len() - i,
    {
        if let Some(c) = &entries[i].config {
            let better: bool = c.device.is_some() && match &r {
                Some(n) => text_is_before(c.name.as_str(), n.as_str()),
                None => true,
            };
            if better {
                r = Some(c.name.clone());
            }
        }
        i = i + 1;
        proof {
            assert(all.take(i as int).drop_last() =~= all.take(i - 1));
            assert(all.take(i as int).last() == entries@[i - 1]@);
        }
    }
    assert(all.take(i as int) =~= all);
    r
}

/// One file as it is shown.
#[derive(Debug, Clone, PartialEq, Eq)]
pub struct ConfigSummary {
    pub name: String,
    /// `base`, `app`, `module` or `unknown`.
    pub kind: &'static str,
    /// The base configuration that a plain module is shown under.
    pub parent: Option<String>,
    pub exclusive_group: Option<String>,
    pub enabled: bool,
    pub errors: Vec<ConfigError>,
}

/// One file as it is shown, without its representation.
#[verifier::ext_equal]
pub struct SummaryView {
    pub name: Seq<char>,
    pub kind: Seq<char>,
    pub parent: Option<Seq<char>>,
    pub exclusive_group: Option<Seq<char>>,
    pub enabled: bool,
    pub errors: Seq<(Seq<char>, Seq<char>)>,
}

impl View for ConfigSummary {
    type V = SummaryView;

    open spec fn view(&self) -> SummaryView {
        SummaryView {
            name: self.name@,
            kind: self.kind@,
            parent: text_in(self.parent),
            exclusive_group: text_in(self.exclusive_group),
            enabled: self.enabled,
            errors: views(self.errors@),
        }
    }
}

/// The group of an entry.
pub open spec fn group_of(e: EntryView) -> Option<Seq<char>> {
    match e.config {
        Some(c) => text_in(c.module.exclusive_group),
        None => None,
    }
}

/// How an entry is shown.
pub open spec fn summary_of(entries: Seq<EntryView>, e: EntryView) -> SummaryView {
    SummaryView {
        name: e.name,
        kind: kind_of(e),
        parent: shown_under(entries, e),
        exclusive_group: group_of(e),
        enabled: e.enabled,
        errors: e.errors,
    }
}

/// Whether an entry is shown: not if it is meant for another compositor.
pub open spec fn is_shown(e: EntryView, compositor: Option<Seq<char>>) -> bool {
    match e.config {
        Some(c) => crate::layers::gate_open(c.module.requires_compositor, compositor),
        None => true,
    }
}

/// How the first `n` entries are shown.
pub open spec fn summaries(
    entries: Seq<EntryView>,
    compositor: Option<Seq<char>>,
    n: int,
) -> Seq<SummaryView>
    decreases n,
{
    if n <= 0 {
        Seq::empty()
    } else {
        let before = summaries(entries, compositor, n - 1);
        if is_shown(entries[n - 1], compositor) {
            before.push(summary_of(entries, entries[n - 1]))
        } else {
            before
        }
    }
}

/// The first error among messages.
pub open spec fn first_error(errors: Seq<(Seq<char>, Seq<char>)>) -> Option<Seq<char>>
    decreases errors.len(),
{
    if errors.len() == 0 {
        None
    } else if errors[0].0 == "error"@ {
        Some(errors[0].1)
    } else {
        first_error(errors.drop_first())
    }
}

/// The first error of a file that could not be read.
pub open spec fn first_failure(entries: Seq<EntryView>) -> Option<Seq<char>>
    decreases entries.len(),
{
    if entries.len() == 0 {
        None
    } else {
        let e = entries[0];
        match e.config {
            None => match first_error(e.errors) {
                Some(m) => Some(m),
                None => first_failure(entries.drop_first()),
            },
            Some(_) => first_failure(entries.drop_first()),
        }
    }
}

fn find_error(errors: &Vec<ConfigError>) -> (r: Option<String>)
    ensures
        text_in(r) == first_error(views(errors@)),
{
    let ghost all = views(errors@);
    let mut i: usize = 0;
    assert(all.skip(0) =~= all);
    while i < errors.len()
        invariant
            i <= errors@.len(),
            all == views(errors@),
            first_error(all) == first_error(all.skip(i as int)),
        decreases errors@.len() - i,
    {
        proof {
            assert(all.skip(i as int)[0] == errors@[i as int]@);
            assert(all.skip(i as int).drop_first() =~= all.skip(i + 1));
        }
        if same_text(errors[i].severity, "error") {
            return Some(errors[i].message.clone());
        }
        i = i + 1;
    }
    None
}

/// Whether a module that takes part names a window class, for any layout.
pub open spec fn names_class(
    entries: Seq<EntryView>,
    compositor: Option<Seq<char>>,
    class: Seq<char>,
) -> bool {
    exists|i: int|
        0 <= i < entries.len() && claims_class(#[trigger] entries[i], compositor, class)
}

/// Whether an entry takes part and names a window class.
pub open spec fn claims_class(
    e: EntryView,
    compositor: Option<Seq<char>>,
    class: Seq<char>,
) -> bool {
    usable_config(e, compositor) matches Some(c) && c.module.match_window_class matches Some(classes)
        && listed(classes, class)
}

/// A window whose class no module names is treated like no window at all.
pub proof fn law_unnamed_class_is_no_class(
    entries: Seq<EntryView>,
    compositor: Option<Seq<char>>,
    base_name: Seq<char>,
    class: Seq<char>,
    layout: u16,
)
    requires
        !names_class(entries, compositor, class),
    ensures
        in_effect(entries, compositor, base_name, Some(class), layout) == in_effect(
            entries,
            compositor,
            base_name,
            None,
            layout,
        ),
{
    lemma_no_module_for_class(entries, compositor, class, layout);
}

proof fn lemma_no_module_for_class(
    entries: Seq<EntryView>,
    compositor: Option<Seq<char>>,
    class: Seq<char>,
    layout: u16,
)
    requires
        !names_class(entries, compositor, class),
    ensures
        module_for_class(entries, compositor, class, layout) is None,
    decreases entries.len(),
{
    if entries.len() > 0 {
        let rest = entries.drop_first();
        assert(!claims_class(entries[0], compositor, class));
        assert forall|i: int| 0 <= i < rest.len() implies !claims_class(
            #[trigger] rest[i],
            compositor,
            class,
        ) by {
            assert(rest[i] == entries[i + 1]);
        }
        lemma_no_module_for_class(rest, compositor, class, layout);
    }
}

/// What the answer to a question is remembered for. All windows whose classes
/// no module names share one answer.
pub open spec fn key_of(
    registry: RegistryView,
    base_name: Seq<char>,
    class: Option<Seq<char>>,
    layout: u16,
) -> KeyView {
    (
        base_name,
        match class {
            Some(c) => if names_class(registry.entries, registry.compositor, c) {
                Some(c)
            } else {
                None
            },
            None => None,
        },
        layout,
    )
}

// ── Hint warnings ────────────────────────────────────────────────────────────

/// What is wrong with the hints of a configuration, with its name in front.
pub open spec fn named_warnings(c: ConfigView) -> Seq<Seq<char>> {
    resolved_hints(c.bindings, c.override_bindings).warnings.map_values(
        |w: Seq<char>| c.name + ": "@ + w,
    )
}

/// What is wrong with hints where the first `n` entries are on top of a base.
pub open spec fn stacked_warnings(
    entries: Seq<EntryView>,
    compositor: Option<Seq<char>>,
    base: ConfigView,
    n: int,
) -> Seq<Seq<char>>
    decreases n,
{
    if n <= 0 {
        Seq::empty()
    } else {
        let before = stacked_warnings(entries, compositor, base, n - 1);
        match usable_config(entries[n - 1], compositor) {
            Some(c) => if c.device is None {
                before + named_warnings(merged(c, base))
            } else {
                before
            },
            None => before,
        }
    }
}

/// What is wrong with hints in the base configurations among the first `n`
/// entries, each alone and under every module.
pub open spec fn all_warnings(
    entries: Seq<EntryView>,
    compositor: Option<Seq<char>>,
    n: int,
) -> Seq<Seq<char>>
    decreases n,
{
    if n <= 0 {
        Seq::empty()
    } else {
        let before = all_warnings(entries, compositor, n - 1);
        match usable_config(entries[n - 1], compositor) {
            Some(c) => if c.device is Some {
                let base = layered(entries, c, compositor);
                before + named_warnings(base) + stacked_warnings(
                    entries,
                    compositor,
                    base,
                    entries.len() as int,
                )
            } else {
                before
            },
            None => before,
        }
    }
}

/// Add what is wrong with the hints of a configuration.
fn add_named_warnings(out: &mut Vec<String>, config: Config)
    ensures
        views(final(out)@) == views(old(out)@) + named_warnings(config@),
{
    let ghost was = views(out@);
    let mut c: Config = config;
    let name: String = c.name.clone();
    let warnings: Vec<String> = c.resolve_hints();
    let ghost all = named_warnings(config@);
    let mut i: usize = 0;
    assert(views(out@) =~= was + all.take(0));
    while i < warnings.len()
        invariant
            i <= warnings@.len(),
            name@ == config@.name,
            all == named_warnings(config@),
            views(warnings@) == resolved_hints(
                config@.bindings,
                config@.override_bindings,
            ).warnings,
            views(out@) == was + all.take(i as int),
        decreases warnings@.len() - i,
    {
        let ghost before = views(out@);
        out.push(joined3(name.as_str(), ": ", warnings[i].as_str()));
        i = i + 1;
        proof {
            assert(views(warnings@)[i - 1] == warnings@[i - 1]@);
            assert(views(out@) =~= before.push(all[i - 1]));
            assert(all.take(i as int) =~= all.take(i - 1).push(all[i - 1]));
            assert(before.push(all[i - 1]) =~= was + all.take(i as int));
        }
    }
    assert(all.take(i as int) =~= all);
}

fn add_stacked_warnings(
    out: &mut Vec<String>,
    entries: &Vec<ConfigEntry>,
    compositor: &Option<String>,
    base: &Config,
)
    ensures
        views(final(out)@) == views(old(out)@) + stacked_warnings(
            views(entries@),
            text_in(*compositor),
            base@,
            entries@.len() as int,
        ),
{
    let ghost was = views(out@);
    let ghost all = views(entries@);
    let ghost comp = text_in(*compositor);
    let mut i: usize = 0;
    assert(views(out@) =~= was + stacked_warnings(all, comp, base@, 0));
    while i < entries.len()
        invariant
            i <= entries@.len(),
            all == views(entries@),
            comp == text_in(*compositor),
            views(out@) == was + stacked_warnings(all, comp, base@, i as int),
        decreases entries@.len() - i,
    {
        let ghost before = views(out@);
        assert(all[i as int] == entries@[i as int]@);
        if let Some(c) = usable(&entries[i], compositor) {
            if c.device.is_none() {
                add_named_warnings(out, c.merged_with_base(base));
                proof {
                    let sofar = stacked_warnings(all, comp, base@, i as int);
                    let more = named_warnings(merged(c@, base@));
                    assert((was + sofar) + more =~= was + (sofar + more));
                }
            }
        }
        i = i + 1;
    }
}

impl ConfigRegistry {
    #[verifier::type_invariant]
    spec fn consistent(self) -> bool {
        &&& distinct_names(views(self.entries@))
        &&& answers_hold(self.resolved@, views(self.entries@), text_in(self.compositor))
    }

    /// What answers are remembered for.
    pub closed spec fn answered(&self) -> Set<KeyView> {
        self.resolved@.dom()
    }

    /// The registry of the files `read`, the shipped ones first, under recorded
    /// preferences. The compositor is not known yet.
    pub fn load(roots: ConfigRoots, read: Vec<ConfigEntry>, preferences: Preferences) -> (r: Self)
        ensures
            r@ == (RegistryView {
                roots,
                entries: preferred(
                    with_conflicts(by_name(views(read@))),
                    preferences@,
                    None,
                ),
                compositor: None,
                preferences: preferences@,
            }),
            r.answered() == Set::<KeyView>::empty(),
    {
        let mut entries: Vec<ConfigEntry> = load_entries(read);
        let ghost before = views(entries@);
        let none: Option<String> = None;
        apply_preferences(&mut entries, &preferences, &none);
        proof {
            lemma_same_names(before, views(entries@));
        }
        let r = ConfigRegistry {
            roots,
            entries,
            compositor: None,
            preferences,
            resolved: KeyedList::new(),
        };
        r
    }

    /// The registry of given entries, as they are.
    pub fn from_entries(entries: Vec<ConfigEntry>) -> (r: Self)
        ensures
            r@.entries == by_name(views(entries@)),
            r@.compositor is None,
            r@.preferences == no_preferences(),
            r.answered() == Set::<KeyView>::empty(),
    {
        let ghost given = views(entries@);
        let named: Vec<ConfigEntry> = entries_by_name(entries);
        let r = ConfigRegistry {
            roots: ConfigRoots { system: String::new(), user: String::new() },
            entries: named,
            compositor: None,
            preferences: Preferences::default(),
            resolved: KeyedList::new(),
        };
        r
    }

    /// The registry without any file.
    pub fn empty() -> (r: Self)
        ensures
            r@.entries == Seq::<EntryView>::empty(),
            r@.compositor is None,
            r@.preferences == no_preferences(),
            r.answered() == Set::<KeyView>::empty(),
    {
        let none: Vec<ConfigEntry> = Vec::new();
        assert(views(none@) =~= Seq::<EntryView>::empty());
        ConfigRegistry::from_entries(none)
    }

    /// Replace all entries by those of the files `read`, under the preferences
    /// that were read with them.
    pub fn reload(&mut self, read: Vec<ConfigEntry>, preferences: Preferences)
        ensures
            final(self)@ == (RegistryView {
                entries: preferred(
                    with_conflicts(by_name(views(read@))),
                    preferences@,
                    old(self)@.compositor,
                ),
                preferences: preferences@,
                ..old(self)@
            }),
            final(self).answered() == Set::<KeyView>::empty(),
    {
        let mut entries: Vec<ConfigEntry> = load_entries(read);
        let ghost before = views(entries@);
        apply_preferences(&mut entries, &preferences, &self.compositor);
        proof {
            use_type_invariant(&*self);
            lemma_same_names(before, views(entries@));
        }
        self.resolved = KeyedList::new();
        self.entries = entries;
        self.preferences = preferences;
    }

    /// Replace or add one entry.
    pub fn put(&mut self, entry: ConfigEntry)
        ensures
            final(self)@ == (RegistryView {
                entries: with_entry(old(self)@.entries, entry@),
                ..old(self)@
            }),
            final(self).answered() == Set::<KeyView>::empty(),
    {
        proof {
            use_type_invariant(&*self);
        }
        self.resolved = KeyedList::new();
        let mut entries: Vec<ConfigEntry> = Vec::new();
        std::mem::swap(&mut entries, &mut self.entries);
        proof {
            lemma_with_entry(views(entries@), entry@);
        }
        put_entry(&mut entries, entry);
        self.entries = entries;
    }

    /// Say which compositor is running. The active members of groups are
    /// decided anew.
    pub fn set_compositor(&mut self, name: Option<String>)
        ensures
            final(self)@ == (RegistryView {
                entries: preferred(
                    old(self)@.entries,
                    old(self)@.preferences,
                    text_in(name),
                ),
                compositor: text_in(name),
                ..old(self)@
            }),
            final(self).answered() == Set::<KeyView>::empty(),
    {
        proof {
            use_type_invariant(&*self);
        }
        self.resolved = KeyedList::new();
        let mut entries: Vec<ConfigEntry> = Vec::new();
        std::mem::swap(&mut entries, &mut self.entries);
        let ghost before = views(entries@);
        apply_preferences(&mut entries, &self.preferences, &name);
        proof {
            lemma_same_names(before, views(entries@));
        }
        self.compositor = name;
        self.entries = entries;
    }

    // ── Questions ────────────────────────────────────────────────────────────

    /// The directories that files are read from.
    pub fn roots(&self) -> (r: &ConfigRoots)
        ensures
            *r == self@.roots,
    {
        &self.roots
    }

    /// The entry of a name.
    pub fn entry(&self, name: &str) -> (r: Option<&ConfigEntry>)
        ensures
            match r {
                Some(e) => entry_named(self@.entries, name@) == Some(e@),
                None => entry_named(self@.entries, name@) is None,
            },
    {
        match find_entry(&self.entries, name) {
            Some(i) => Some(&self.entries[i]),
            None => None,
        }
    }

    /// All entries.
    pub fn entries(&self) -> (r: &Vec<ConfigEntry>)
        ensures
            views(r@) == self@.entries,
            distinct_names(self@.entries),
    {
        proof {
            use_type_invariant(self);
        }
        &self.entries
    }

    /// The recorded choices.
    pub fn preferences(&self) -> (r: &Preferences)
        ensures
            r@ == self@.preferences,
    {
        &self.preferences
    }

    /// The running compositor.
    pub fn compositor(&self) -> (r: Option<String>)
        ensures
            text_in(r) == self@.compositor,
    {
        copy_text(&self.compositor)
    }

    /// Whether a base configuration that takes part is for the device called
    /// `evdev_name`.
    pub fn any_device_matches(&self, evdev_name: &str) -> (r: bool)
        ensures
            r == exists|i: int|
                0 <= i < self@.entries.len() && drives(
                    #[trigger] self@.entries[i],
                    self@.compositor,
                    evdev_name@,
                ),
    {
        let mut i: usize = 0;
        while i < self.entries.len()
            invariant
                i <= self.entries@.len(),
                forall|j: int|
                    0 <= j < i ==> !drives(
                        #[trigger] self@.entries[j],
                        self@.compositor,
                        evdev_name@,
                    ),
            decreases self.entries@.len() - i,
        {
            assert(self@.entries[i as int] == self.entries@[i as int]@);
            if let Some(c) = usable(&self.entries[i], &self.compositor) {
                if let Some(d) = &c.device {
                    if d.matches_evdev_name(evdev_name) {
                        return true;
                    }
                }
            }
            i = i + 1;
        }
        false
    }

    /// The base configurations that take part, each with its modules.
    pub fn base_configs(&self) -> (r: Vec<Config>)
        ensures
            views(r@) == base_list(
                self@.entries,
                self@.compositor,
                self@.entries.len() as int,
            ),
    {
        let mut r: Vec<Config> = Vec::new();
        let mut i: usize = 0;
        assert(views(r@) =~= Seq::<ConfigView>::empty());
        while i < self.entries.len()
            invariant
                i <= self.entries@.len(),
                views(r@) == base_list(self@.entries, self@.compositor, i as int),
            decreases self.entries@.len() - i,
        {
            let ghost before = views(r@);
            assert(self@.entries[i as int] == self.entries@[i as int]@);
            if let Some(c) = usable(&self.entries[i], &self.compositor) {
                if c.device.is_some() {
                    r.push(with_modules(&self.entries, c, &self.compositor));
                    assert(views(r@) =~= before.push(
                        layered(self@.entries, c@, self@.compositor),
                    ));
                }
            }
            i = i + 1;
        }
        r
    }

    /// The modules that take part and name window classes.
    pub fn window_class_modules(&self) -> (r: Vec<Config>)
        ensures
            views(r@) == class_modules(
                self@.entries,
                self@.compositor,
                self@.entries.len() as int,
            ),
    {
        let mut r: Vec<Config> = Vec::new();
        let mut i: usize = 0;
        assert(views(r@) =~= Seq::<ConfigView>::empty());
        while i < self.entries.len()
            invariant
                i <= self.entries@.len(),
                views(r@) == class_modules(self@.entries, self@.compositor, i as int),
            decreases self.entries@.len() - i,
        {
            let ghost before = views(r@);
            assert(self@.entries[i as int] == self.entries@[i as int]@);
            if let Some(c) = usable(&self.entries[i], &self.compositor) {
                if c.module.match_window_class.is_some() {
                    r.push(c.clone());
                    assert(views(r@) =~= before.push(c@));
                }
            }
            i = i + 1;
        }
        r
    }

    /// Whether a module that takes part names a window class.
    pub fn claims_window_class(&self, class: &str) -> (r: bool)
        ensures
            r == names_class(self@.entries, self@.compositor, class@),
    {
        let mut i: usize = 0;
        while i < self.entries.len()
            invariant
                i <= self.entries@.len(),
                forall|j: int|
                    0 <= j < i ==> !claims_class(
                        #[trigger] self@.entries[j],
                        self@.compositor,
                        class@,
                    ),
            decreases self.entries@.len() - i,
        {
            assert(self@.entries[i as int] == self.entries@[i as int]@);
            if let Some(c) = usable(&self.entries[i], &self.compositor) {
                if let Some(classes) = &c.module.match_window_class {
                    if lists(classes, class) {
                        return true;
                    }
                }
            }
            i = i + 1;
        }
        false
    }

    /// What is in effect for a base configuration, the focused window and a
    /// layout. Answers are remembered until something that they depend on
    /// changes.
    pub fn resolve(&mut self, base_name: &str, client: &Client, layout: u16) -> (r: Option<
        Arc<Config>,
    >)
        ensures
            final(self)@ == old(self)@,
            (Answer { config: r })@ == in_effect(
                old(self)@.entries,
                old(self)@.compositor,
                base_name@,
                client_class(*client),
                layout,
            ),
            final(self).answered() == old(self).answered().insert(
                key_of(old(self)@, base_name@, client_class(*client), layout),
            ),
    {
        proof {
            use_type_invariant(&*self);
        }
        let class: Option<String> = match client {
            Client::Class(class, _, _) => if self.claims_window_class(class.as_str()) {
                Some(class.clone())
            } else {
                proof {
                    law_unnamed_class_is_no_class(
                        self@.entries,
                        self@.compositor,
                        base_name@,
                        class@,
                        layout,
                    );
                }
                None
            },
            Client::Default => None,
        };
        let key = ResolveKey { base_name: base_name.to_owned(), window_class: class, layout };
        if let Some(hit) = self.resolved.get(&key) {
            assert(self.answered() =~= self.answered().insert(key@));
            return hit.replicate().config;
        }
        let config: Option<Arc<Config>> = match resolve_uncached(
            &self.entries,
            &self.compositor,
            base_name,
            &key.window_class,
            layout,
        ) {
            Some(c) => Some(Arc::new(c)),
            None => None,
        };
        let answer = Answer { config };
        let mut resolved: KeyedList<ResolveKey, Answer> = KeyedList::new();
        std::mem::swap(&mut resolved, &mut self.resolved);
        resolved.insert(key, answer.replicate());
        self.resolved = resolved;
        answer.config
    }

    /// In which layouts anything is in effect for a window.
    pub fn layouts(&mut self, base_name: &str, client: &Client) -> (r: [bool; 4])
        ensures
            final(self)@ == old(self)@,
            r@ == layouts_there(
                old(self)@.entries,
                old(self)@.compositor,
                base_name@,
                client_class(*client),
            ),
    {
        let a: bool = self.resolve(base_name, client, 0).is_some();
        let b: bool = self.resolve(base_name, client, 1).is_some();
        let c: bool = self.resolve(base_name, client, 2).is_some();
        let d: bool = self.resolve(base_name, client, 3).is_some();
        let r: [bool; 4] = [a, b, c, d];
        assert(r@ =~= layouts_there(
            old(self)@.entries,
            old(self)@.compositor,
            base_name@,
            client_class(*client),
        ));
        r
    }

    /// What is in effect for a window, and in which layout: the active one or,
    /// where nothing is in effect in it, the next one. None where the base
    /// configuration takes no part.
    pub fn update_config(&mut self, base_name: &str, client: &Client, layout: u16) -> (r: Option<
        (u16, Arc<Config>),
    >)
        requires
            layout < 4,
        ensures
            final(self)@ == old(self)@,
            ({
                let entries = old(self)@.entries;
                let compositor = old(self)@.compositor;
                let class = client_class(*client);
                let there = layouts_there(entries, compositor, base_name@, class);
                match r {
                    Some((l, config)) => {
                        &&& l == if there[layout as int] {
                            layout
                        } else {
                            next_layout(layout, there)
                        }
                        &&& in_effect(entries, compositor, base_name@, class, l) == Some(config@)
                    },
                    None => base_named(entries, compositor, base_name@) is None,
                }
            }),
    {
        if let Some(config) = self.resolve(base_name, client, layout) {
            return Some((layout, config));
        }
        proof {
            law_first_layout_is_always_there(
                self@.entries,
                self@.compositor,
                base_name@,
                client_class(*client),
                layout,
            );
        }
        let there: [bool; 4] = self.layouts(base_name, client);
        if !there[0] {
            return None;
        }
        let next: u16 = change_active_layout(layout, &there);
        match self.resolve(base_name, client, next) {
            Some(config) => Some((next, config)),
            None => None,
        }
    }

    /// How many answers are remembered.
    pub fn remembered_answers(&self) -> (r: usize)
        ensures
            r == self.answered().len(),
    {
        self.resolved.len()
    }

    /// What is wrong with hints anywhere, in ascending order, each message
    /// once.
    pub fn hint_warnings(&self) -> (r: Vec<String>)
        ensures
            views(r@) == arrange::<String>(
                all_warnings(self@.entries, self@.compositor, self@.entries.len() as int),
            ),
    {
        let mut out: Vec<String> = Vec::new();
        let mut i: usize = 0;
        let ghost all = self@.entries;
        let ghost comp = self@.compositor;
        assert(views(out@) =~= Seq::<Seq<char>>::empty());
        while i < self.entries.len()
            invariant
                i <= self.entries@.len(),
                all == self@.entries,
                comp == self@.compositor,
                views(out@) == all_warnings(all, comp, i as int),
            decreases self.entries@.len() - i,
        {
            assert(all[i as int] == self.entries@[i as int]@);
            if let Some(c) = usable(&self.entries[i], &self.compositor) {
                if c.device.is_some() {
                    let base: Config = with_modules(&self.entries, c, &self.compositor);
                    add_named_warnings(&mut out, base.clone());
                    add_stacked_warnings(&mut out, &self.entries, &self.compositor, &base);
                }
            }
            i = i + 1;
        }
        arranged(&out)
    }

    /// All files as they are shown. Those for another compositor are left out.
    pub fn snapshot(&self) -> (r: Vec<ConfigSummary>)
        ensures
            views(r@) == summaries(
                self@.entries,
                self@.compositor,
                self@.entries.len() as int,
            ),
    {
        let mut r: Vec<ConfigSummary> = Vec::new();
        let mut i: usize = 0;
        assert(views(r@) =~= Seq::<SummaryView>::empty());
        while i < self.entries.len()
            invariant
                i <= self.entries@.len(),
                views(r@) == summaries(self@.entries, self@.compositor, i as int),
            decreases self.entries@.len() - i,
        {
            let ghost before = views(r@);
            let e: &ConfigEntry = &self.entries[i];
            assert(self@.entries[i as int] == e@);
            let shown: bool = match &e.config {
                Some(c) => c.module.requires_compositor.is_none() || same_option(
                    &c.module.requires_compositor,
                    &self.compositor,
                ),
                None => true,
            };
            if shown {
                r.push(
                    ConfigSummary {
                        name: e.name.clone(),
                        kind: entry_kind(e),
                        parent: parent_of(&self.entries, e),
                        exclusive_group: match &e.config {
                            Some(c) => copy_text(&c.module.exclusive_group),
                            None => None,
                        },
                        enabled: e.enabled,
                        errors: copy_errors(&e.errors),
                    },
                );
                assert(views(r@) =~= before.push(summary_of(self@.entries, e@)));
            }
            i = i + 1;
        }
        r
    }

    /// The first error of a file that could not be read.
    pub fn base_config_error(&self) -> (r: Option<String>)
        ensures
            text_in(r) == first_failure(self@.entries),
    {
        let ghost all = self@.entries;
        let mut i: usize = 0;
        assert(all.skip(0) =~= all);
        while i < self.entries.len()
            invariant
                i <= self.entries@.len(),
                all == self@.entries,
                first_failure(all) == first_failure(all.skip(i as int)),
            decreases self.entries@.len() - i,
        {
            proof {
                assert(all.skip(i as int)[0] == self.entries@[i as int]@);
                assert(all.skip(i as int).drop_first() =~= all.skip(i + 1));
            }
            if self.entries[i].config.is_none() {
                let found: Option<String> = find_error(&self.entries[i].errors);
                if found.is_some() {
                    return found;
                }
            }
            i = i + 1;
        }
        None
    }

    // ── Switching ────────────────────────────────────────────────────────────

    /// Switch a file on or off, and say what became of it.
    pub fn toggle(&mut self, name: &str, enabled: bool) -> (r: Toggle)
        ensures
            is_toggled(old(self)@, final(self)@, name@, enabled, r),
            final(self).answered() == if r == Toggle::Applied {
                Set::<KeyView>::empty()
            } else {
                old(self).answered()
            },
    {
        proof {
            use_type_invariant(&*self);
        }
        let at: usize = match find_entry(&self.entries, name) {
            Some(i) => i,
            None => {
                return Toggle::Refused;
            },
        };
        proof {
            lemma_place_of(self@.entries, name@);
            assert(self@.entries[at as int] == self.entries@[at as int]@);
        }
        if enabled && self.entries[at].config.is_none() {
            return Toggle::Refused;
        }
        let group: Option<String> = match &self.entries[at].config {
            Some(c) => copy_text(&c.module.exclusive_group),
            None => None,
        };
        if group.is_some() && !enabled && !self.entries[at].enabled {
            return Toggle::Idle;
        }
        self.resolved = KeyedList::new();
        let mut entries: Vec<ConfigEntry> = Vec::new();
        std::mem::swap(&mut entries, &mut self.entries);
        let mut preferences: Preferences = self.preferences.clone();
        let ghost before = views(entries@);
        match &group {
            Some(g) => {
                if enabled {
                    let siblings: Vec<String> = group_members(&entries, g.as_str());
                    let member: Option<String> = Some(name.to_owned());
                    enable_member(&mut entries, g.as_str(), &member);
                    preferences.set_group_choice(g.as_str(), name, &siblings);
                } else {
                    let none: Option<String> = None;
                    enable_member(&mut entries, g.as_str(), &none);
                    preferences.set_group_disabled(g.as_str(), true);
                }
            },
            None => {
                let ghost e = entries@[at as int];
                entries[at].enabled = enabled;
                preferences.set_disabled(name, !enabled);
                proof {
                    assert(entries@[at as int]@ == (EntryView { enabled, ..e@ }));
                    assert(views(entries@) =~= before.update(
                        at as int,
                        EntryView { enabled, ..e@ },
                    ));
                }
            },
        }
        proof {
            lemma_same_names(before, views(entries@));
        }
        self.entries = entries;
        self.preferences = preferences;
        Toggle::Applied
    }

    /// Switch a file on or off. False where there is no such file, or where it
    /// could not be read and is to be switched on.
    pub fn set_enabled(&mut self, name: &str, enabled: bool) -> (r: bool)
        ensures
            exists|t: Toggle|
                {
                    &&& is_toggled(old(self)@, final(self)@, name@, enabled, t)
                    &&& r == (t != Toggle::Refused)
                    &&& final(self).answered() == if t == Toggle::Applied {
                        Set::<KeyView>::empty()
                    } else {
                        old(self).answered()
                    }
                },
    {
        let t: Toggle = self.toggle(name, enabled);
        t != Toggle::Refused
    }

    /// Switch a whole group on or off. False where no file is in that group.
    pub fn set_group_enabled(&mut self, group: &str, enabled: bool) -> (r: bool)
        ensures
            is_group_toggled(old(self)@, final(self)@, group@, enabled, r),
            final(self).answered() == if r {
                Set::<KeyView>::empty()
            } else {
                old(self).answered()
            },
    {
        proof {
            use_type_invariant(&*self);
        }
        let siblings: Vec<String> = group_members(&self.entries, group);
        if siblings.len() == 0 {
            return false;
        }
        let member: Option<String> = if enabled {
            remembered_member(&self.entries, &self.preferences, group, &self.compositor)
        } else {
            None
        };
        self.resolved = KeyedList::new();
        let mut entries: Vec<ConfigEntry> = Vec::new();
        std::mem::swap(&mut entries, &mut self.entries);
        let mut preferences: Preferences = self.preferences.clone();
        let ghost before = views(entries@);
        enable_member(&mut entries, group, &member);
        match &member {
            Some(m) => preferences.set_group_choice(group, m.as_str(), &siblings),
            None => preferences.set_group_disabled(group, true),
        }
        proof {
            lemma_same_names(before, views(entries@));
        }
        self.entries = entries;
        self.preferences = preferences;
        true
    }
}

/// Whether an entry takes part and is for the device of a name.
pub open spec fn drives(
    e: EntryView,
    compositor: Option<Seq<char>>,
    evdev_name: Seq<char>,
) -> bool {
    usable_config(e, compositor) matches Some(c) && c.device matches Some((_, names))
        && device_matches(names, evdev_name)
}

/// The base configurations among the first `n` entries that take part.
pub open spec fn base_list(
    entries: Seq<EntryView>,
    compositor: Option<Seq<char>>,
    n: int,
) -> Seq<ConfigView>
    decreases n,
{
    if n <= 0 {
        Seq::empty()
    } else {
        let before = base_list(entries, compositor, n - 1);
        match usable_config(entries[n - 1], compositor) {
            Some(c) => if c.device is Some {
                before.push(layered(entries, c, compositor))
            } else {
                before
            },
            None => before,
        }
    }
}

/// The modules among the first `n` entries that take part and name window
/// classes.
pub open spec fn class_modules(
    entries: Seq<EntryView>,
    compositor: Option<Seq<char>>,
    n: int,
) -> Seq<ConfigView>
    decreases n,
{
    if n <= 0 {
        Seq::empty()
    } else {
        let before = class_modules(entries, compositor, n - 1);
        match usable_config(entries[n - 1], compositor) {
            Some(c) => if c.module.match_window_class is Some {
                before.push(c)
            } else {
                before
            },
            None => before,
        }
    }
}

/// What became of switching a file.
#[derive(Debug, Clone, Copy, PartialEq, Eq, Structural)]
pub enum Toggle {
    /// There is no such file, or it cannot be switched on.
    Refused,
    /// Nothing was to be done.
    Idle,
    /// The change was made, and the preferences are to be saved.
    Applied,
}

/// Whether `new` is `old` after a file was switched. Switching on a member of a
/// group switches its siblings off; switching off the active member switches
/// the group off, and switching off another member does nothing.
pub open spec fn is_toggled(
    old: RegistryView,
    new: RegistryView,
    name: Seq<char>,
    enabled: bool,
    t: Toggle,
) -> bool {
    match entry_named(old.entries, name) {
        None => t == Toggle::Refused && new == old,
        Some(e) => if enabled && e.config is None {
            t == Toggle::Refused && new == old
        } else {
            match group_of(e) {
                Some(g) => if !enabled && !e.enabled {
                    t == Toggle::Idle && new == old
                } else {
                    &&& t == Toggle::Applied
                    &&& new == (RegistryView {
                        entries: with_member(
                            old.entries,
                            g,
                            if enabled {
                                Some(name)
                            } else {
                                None
                            },
                        ),
                        preferences: new.preferences,
                        ..old
                    })
                    &&& if enabled {
                        member_picked(
                            old.preferences,
                            new.preferences,
                            g,
                            name,
                            members(old.entries, g),
                        )
                    } else {
                        group_switched(old.preferences, new.preferences, g, true)
                    }
                },
                None => {
                    &&& t == Toggle::Applied
                    &&& new == (RegistryView {
                        entries: old.entries.update(
                            place_of(old.entries, name),
                            EntryView { enabled, ..e },
                        ),
                        preferences: new.preferences,
                        ..old
                    })
                    &&& module_switched(old.preferences, new.preferences, name, !enabled)
                },
            }
        },
    }
}

/// Whether `new` is `old` after a group was switched. Switching on comes back
/// to the remembered member; where no member can be active the group stays
/// off.
pub open spec fn is_group_toggled(
    old: RegistryView,
    new: RegistryView,
    group: Seq<char>,
    enabled: bool,
    r: bool,
) -> bool {
    let siblings = members(old.entries, group);
    let member = if enabled {
        remembered(old.entries, old.preferences.choices, group, old.compositor)
    } else {
        None
    };
    if siblings.len() == 0 {
        !r && new == old
    } else {
        &&& r
        &&& new == (RegistryView {
            entries: with_member(old.entries, group, member),
            preferences: new.preferences,
            ..old
        })
        &&& match member {
            Some(m) => member_picked(old.preferences, new.preferences, group, m, siblings),
            None => group_switched(old.preferences, new.preferences, group, true),
        }
    }
}

// ── Laws ─────────────────────────────────────────────────────────────────────

/// Once a member of a group was switched on, it is the only one that is on.
pub proof fn law_switching_on_picks_one(
    old: RegistryView,
    new: RegistryView,
    name: Seq<char>,
    group: Seq<char>,
    i: int,
)
    requires
        is_toggled(old, new, name, true, Toggle::Applied),
        entry_named(old.entries, name) matches Some(e) && group_of(e) == Some(group),
        0 <= i < old.entries.len(),
        in_group(old.entries[i], group),
    ensures
        new.entries[i].enabled == (old.entries[i].name == name),
{
}

/// A picked member is picked again after a restart, as long as it can run:
/// preferences that recorded it lead to it, whatever was enabled before.
pub proof fn law_pick_survives_restart(
    old: RegistryView,
    new: RegistryView,
    name: Seq<char>,
    group: Seq<char>,
    fresh: Seq<EntryView>,
)
    requires
        is_toggled(old, new, name, true, Toggle::Applied),
        entry_named(old.entries, name) matches Some(e) && group_of(e) == Some(group),
        crate::groups::can_win_as(fresh, group, new.compositor, name),
    ensures
        crate::groups::active_member(fresh, new.preferences, group, new.compositor) == Some(name),
{
    lemma_switched_on(old.preferences.groups_off, new.preferences.groups_off, group);
}

/// Switching off the active member switches the whole group off, and off it
/// stays after a restart; the member that was picked is not forgotten.
pub proof fn law_off_survives_restart(
    old: RegistryView,
    new: RegistryView,
    name: Seq<char>,
    group: Seq<char>,
    fresh: Seq<EntryView>,
)
    requires
        is_toggled(old, new, name, false, Toggle::Applied),
        entry_named(old.entries, name) matches Some(e) && group_of(e) == Some(group),
    ensures
        crate::groups::active_member(fresh, new.preferences, group, new.compositor) is None,
        new.preferences.choices == old.preferences.choices,
{
    lemma_switched_off(old.preferences.groups_off, new.preferences.groups_off, group);
}

/// Switching a group off and on again comes back to the member that was picked,
/// as long as it can run.
pub proof fn law_group_comes_back(
    old: RegistryView,
    off: RegistryView,
    on: RegistryView,
    group: Seq<char>,
    name: Seq<char>,
    i: int,
)
    requires
        old.preferences.choices.contains_key(group),
        old.preferences.choices[group] == name,
        crate::groups::can_win_as(old.entries, group, old.compositor, name),
        is_group_toggled(old, off, group, false, true),
        is_group_toggled(off, on, group, true, true),
        0 <= i < old.entries.len(),
        in_group(old.entries[i], group),
    ensures
        !off.entries[i].enabled,
        on.entries[i].enabled == (old.entries[i].name == name),
        on.preferences.choices == old.preferences.choices.insert(group, name),
{
    let k = choose|k: int|
        0 <= k < old.entries.len() && crate::groups::can_win(
            #[trigger] old.entries[k],
            group,
            old.compositor,
        ) && old.entries[k].name == name;
    assert(crate::groups::can_win(off.entries[k], group, off.compositor));
    assert(off.entries[i] == (EntryView { enabled: false, ..old.entries[i] }));
    assert(in_group(off.entries[i], group));
}

proof fn lemma_switched_on(s: Seq<Seq<char>>, r: Seq<Seq<char>>, name: Seq<char>)
    requires
        crate::order::sorts::<String>(r, crate::preferences::switched(s, name, false)),
    ensures
        !r.contains(name),
{
    crate::preferences::lemma_without(s, set![name]);
    crate::order::lemma_sorts_members::<String>(
        r,
        crate::preferences::switched(s, name, false),
    );
}

proof fn lemma_switched_off(s: Seq<Seq<char>>, r: Seq<Seq<char>>, name: Seq<char>)
    requires
        crate::order::sorts::<String>(r, crate::preferences::switched(s, name, true)),
    ensures
        r.contains(name),
{
    let rest = crate::preferences::without(s, set![name]);
    let all = rest.push(name);
    assert(all[rest.len() as int] == name);
    assert(all.contains(name));
    crate::order::lemma_sorts_members::<String>(
        r,
        crate::preferences::switched(s, name, true),
    );
}

/// The first layout is in effect whenever its base configuration takes part,
/// and any other layout only where a module is for it.
pub proof fn law_first_layout_is_always_there(
    entries: Seq<EntryView>,
    compositor: Option<Seq<char>>,
    base_name: Seq<char>,
    class: Option<Seq<char>>,
    layout: u16,
)
    ensures
        in_effect(entries, compositor, base_name, class, 0) is Some <==> base_named(
            entries,
            compositor,
            base_name,
        ) is Some,
        layout != 0 ==> (in_effect(entries, compositor, base_name, class, layout) is Some <==> (
        base_named(entries, compositor, base_name) is Some && applying_module(
            entries,
            compositor,
            class,
            layout,
        ) is Some)),
{
}

/// What is in effect is a file's own word over the base and its modules: a
/// combo that the module in effect binds does what that says, any other what
/// the base with its modules says.
pub proof fn law_module_over_base(
    entries: Seq<EntryView>,
    compositor: Option<Seq<char>>,
    base_name: Seq<char>,
    class: Option<Seq<char>>,
    layout: u16,
    c: crate::config::ComboView,
)
    requires
        in_effect(entries, compositor, base_name, class, layout) is Some,
    ensures
        ({
            let result = in_effect(entries, compositor, base_name, class, layout)->0;
            let base = layered(
                entries,
                base_named(entries, compositor, base_name)->0,
                compositor,
            );
            crate::config::deed(result.bindings, c) == match applying_module(
                entries,
                compositor,
                class,
                layout,
            ) {
                Some(m) => if crate::config::bound(m.bindings).contains(c) {
                    crate::config::deed(m.bindings, c)
                } else {
                    crate::config::deed(base.bindings, c)
                },
                None => crate::config::deed(base.bindings, c),
            }
        }),
{
    if let Some(m) = applying_module(entries, compositor, class, layout) {
        let base = layered(
            entries,
            base_named(entries, compositor, base_name)->0,
            compositor,
        );
        crate::config::law_upper_binding_decides(m.bindings, base.bindings, c);
    }
}

/// An entry that takes no part.
spec fn idle(e: EntryView, compositor: Option<Seq<char>>) -> bool {
    usable_config(e, compositor) is None
}

proof fn lemma_idle_modules(
    entries: Seq<EntryView>,
    i: int,
    other: EntryView,
    compositor: Option<Seq<char>>,
    class: Seq<char>,
    layout: u16,
)
    requires
        0 <= i < entries.len(),
        idle(entries[i], compositor),
        idle(other, compositor),
    ensures
        module_for_class(entries.update(i, other), compositor, class, layout) == module_for_class(
            entries,
            compositor,
            class,
            layout,
        ),
        module_for_layout(entries.update(i, other), compositor, layout) == module_for_layout(
            entries,
            compositor,
            layout,
        ),
    decreases entries.len(),
{
    let changed = entries.update(i, other);
    if i > 0 {
        assert(changed.drop_first() =~= entries.drop_first().update(i - 1, other));
        lemma_idle_modules(entries.drop_first(), i - 1, other, compositor, class, layout);
    } else {
        assert(changed.drop_first() =~= entries.drop_first());
    }
}

proof fn lemma_idle_layers(
    entries: Seq<EntryView>,
    i: int,
    other: EntryView,
    compositor: Option<Seq<char>>,
)
    requires
        0 <= i < entries.len(),
        idle(entries[i], compositor),
        idle(other, compositor),
    ensures
        crate::layers::layers(entries.update(i, other), compositor) == crate::layers::layers(
            entries,
            compositor,
        ),
    decreases entries.len(),
{
    let changed = entries.update(i, other);
    if i < entries.len() - 1 {
        assert(changed.drop_last() =~= entries.drop_last().update(i, other));
        lemma_idle_layers(entries.drop_last(), i, other, compositor);
    } else {
        assert(changed.drop_last() =~= entries.drop_last());
    }
}

proof fn lemma_same_place(entries: Seq<EntryView>, i: int, other: EntryView, name: Seq<char>)
    requires
        0 <= i < entries.len(),
        other.name == entries[i].name,
    ensures
        place_of(entries.update(i, other), name) == place_of(entries, name),
    decreases entries.len(),
{
    let changed = entries.update(i, other);
    if i > 0 {
        assert(changed.drop_first() =~= entries.drop_first().update(i - 1, other));
        lemma_same_place(entries.drop_first(), i - 1, other, name);
    } else {
        assert(changed.drop_first() =~= entries.drop_first());
    }
}

/// A file that is switched off, could not be read, or is meant for another
/// compositor has no say in what is in effect: it may hold anything.
pub proof fn law_idle_entry_has_no_say(
    entries: Seq<EntryView>,
    i: int,
    other: EntryView,
    compositor: Option<Seq<char>>,
    base_name: Seq<char>,
    class: Option<Seq<char>>,
    layout: u16,
)
    requires
        0 <= i < entries.len(),
        usable_config(entries[i], compositor) is None,
        usable_config(other, compositor) is None,
        other.name == entries[i].name,
        other.from_user == entries[i].from_user,
    ensures
        in_effect(entries.update(i, other), compositor, base_name, class, layout) == in_effect(
            entries,
            compositor,
            base_name,
            class,
            layout,
        ),
{
    lemma_same_place(entries, i, other, base_name);
    lemma_place_of(entries, base_name);
    lemma_idle_layers(entries, i, other, compositor);
    lemma_idle_modules(
        entries,
        i,
        other,
        compositor,
        match class {
            Some(c) => c,
            None => Seq::empty(),
        },
        layout,
    );
    if let Some(raw) = base_named(entries, compositor, base_name) {
        lemma_same_place(entries, i, other, raw.name);
        lemma_place_of(entries, raw.name);
    }
}

/// A base configuration that is switched off or could not be read never becomes
/// what is in effect.
pub proof fn law_idle_base_is_never_in_effect(
    entries: Seq<EntryView>,
    compositor: Option<Seq<char>>,
    base_name: Seq<char>,
    class: Option<Seq<char>>,
    layout: u16,
)
    requires
        entry_named(entries, base_name) matches Some(e) ==> usable_config(e, compositor) is None,
    ensures
        in_effect(entries, compositor, base_name, class, layout) is None,
{
}

/// Whether entries are as they were read: what could be read is enabled.
pub open spec fn as_read(entries: Seq<EntryView>) -> bool {
    distinct_names(entries) && forall|i: int|
        0 <= i < entries.len() ==> (#[trigger] entries[i]).enabled == (entries[i].config is Some)
}

/// What is recorded leads to what is there: after a file was switched, reading
/// the same files again under the recorded preferences gives the same registry.
/// A member that is switched on has to be able to run, since a restart would
/// pick another one in its place.
pub proof fn law_switching_agrees_with_restart(
    files: Seq<EntryView>,
    old: RegistryView,
    new: RegistryView,
    name: Seq<char>,
    enabled: bool,
    t: Toggle,
)
    requires
        as_read(files),
        old.entries == preferred(files, old.preferences, old.compositor),
        is_toggled(old, new, name, enabled, t),
        enabled && entry_named(files, name) is Some && group_of(entry_named(files, name)->0) is Some
            ==> could_run(entry_named(files, name)->0, old.compositor),
    ensures
        new.entries == preferred(files, new.preferences, new.compositor),
{
    lemma_same_place_of_names(files, old.entries, name);
    lemma_place_of(files, name);
    lemma_place_of(old.entries, name);
    let at = place_of(files, name);
    if t == Toggle::Applied {
        let e = old.entries[at];
        let want = preferred(files, new.preferences, new.compositor);
        match group_of(e) {
            Some(g) => {
                lemma_group_switched_entries(files, old, new, name, g, enabled, at);
            },
            None => {
                lemma_others_stay(
                    old.preferences.modules_off,
                    new.preferences.modules_off,
                    name,
                    !enabled,
                );
                assert forall|i: int| 0 <= i < files.len() implies #[trigger] new.entries[i]
                    == want[i] by {
                    assert(old.entries[i].name == files[i].name);
                    if i != at {
                        assert(files[i].name != name) by {
                            assert(files[at].name == name);
                        }
                    }
                }
                assert(new.entries =~= want);
            },
        }
    }
}

/// After a group was switched, reading the same files again under the recorded
/// preferences gives the same registry.
pub proof fn law_switching_groups_agrees_with_restart(
    files: Seq<EntryView>,
    old: RegistryView,
    new: RegistryView,
    group: Seq<char>,
    enabled: bool,
    r: bool,
)
    requires
        as_read(files),
        old.entries == preferred(files, old.preferences, old.compositor),
        is_group_toggled(old, new, group, enabled, r),
    ensures
        new.entries == preferred(files, new.preferences, new.compositor),
{
    if r {
        let member = if enabled {
            remembered(old.entries, old.preferences.choices, group, old.compositor)
        } else {
            None
        };
        crate::groups::lemma_same_member(files, old.entries, group, old.compositor);
        crate::groups::lemma_first_member(files, group, old.compositor);
        match member {
            Some(m) => {
                lemma_pick_agrees(files, old, new, m, group);
            },
            None => {
                lemma_off_agrees(files, old, new, group);
            },
        }
    }
}

proof fn lemma_group_switched_entries(
    files: Seq<EntryView>,
    old: RegistryView,
    new: RegistryView,
    name: Seq<char>,
    group: Seq<char>,
    enabled: bool,
    at: int,
)
    requires
        as_read(files),
        old.entries == preferred(files, old.preferences, old.compositor),
        is_toggled(old, new, name, enabled, Toggle::Applied),
        entry_named(old.entries, name) == Some(old.entries[at]),
        0 <= at < files.len(),
        files[at].name == name,
        group_of(old.entries[at]) == Some(group),
        enabled ==> could_run(files[at], old.compositor),
    ensures
        new.entries == preferred(files, new.preferences, new.compositor),
{
    if enabled {
        assert(crate::groups::can_win(files[at], group, old.compositor));
        lemma_pick_agrees(files, old, new, name, group);
    } else {
        lemma_off_agrees(files, old, new, group);
    }
}

/// Picking a member that can be active and recording it agree.
proof fn lemma_pick_agrees(
    files: Seq<EntryView>,
    old: RegistryView,
    new: RegistryView,
    name: Seq<char>,
    group: Seq<char>,
)
    requires
        as_read(files),
        old.entries == preferred(files, old.preferences, old.compositor),
        crate::groups::can_win_as(files, group, old.compositor, name),
        new == (RegistryView {
            entries: with_member(old.entries, group, Some(name)),
            preferences: new.preferences,
            ..old
        }),
        member_picked(
            old.preferences,
            new.preferences,
            group,
            name,
            members(old.entries, group),
        ),
    ensures
        new.entries == preferred(files, new.preferences, new.compositor),
{
    let want = preferred(files, new.preferences, new.compositor);
    lemma_others_stay(old.preferences.groups_off, new.preferences.groups_off, group, false);
    crate::preferences::lemma_without(
        old.preferences.modules_off,
        members(old.entries, group).to_set(),
    );
    assert forall|i: int| 0 <= i < files.len() implies #[trigger] new.entries[i] == want[i] by {
        let e = files[i];
        assert(old.entries[i].name == e.name && old.entries[i].config == e.config);
        if let Some(c) = e.config {
            if c.module.exclusive_group is None {
                assert(!in_group(e, group));
                assert(!members(old.entries, group).contains(e.name)) by {
                    lemma_members_named(old.entries, group, e.name);
                    if members(old.entries, group).contains(e.name) {
                        let j = choose|j: int|
                            0 <= j < old.entries.len() && in_group(
                                #[trigger] old.entries[j],
                                group,
                            ) && old.entries[j].name == e.name;
                        assert(files[j].name == files[i].name);
                    }
                }
            }
        }
    }
    assert(new.entries =~= want);
}

/// Switching a group off and recording it agree.
proof fn lemma_off_agrees(
    files: Seq<EntryView>,
    old: RegistryView,
    new: RegistryView,
    group: Seq<char>,
)
    requires
        as_read(files),
        old.entries == preferred(files, old.preferences, old.compositor),
        new == (RegistryView {
            entries: with_member(old.entries, group, None),
            preferences: new.preferences,
            ..old
        }),
        group_switched(old.preferences, new.preferences, group, true),
    ensures
        new.entries == preferred(files, new.preferences, new.compositor),
{
    let want = preferred(files, new.preferences, new.compositor);
    lemma_others_stay(old.preferences.groups_off, new.preferences.groups_off, group, true);
    assert forall|i: int| 0 <= i < files.len() implies #[trigger] new.entries[i] == want[i] by {
        let e = files[i];
        assert(old.entries[i].name == e.name && old.entries[i].config == e.config);
    }
    assert(new.entries =~= want);
}

proof fn lemma_others_stay(s: Seq<Seq<char>>, r: Seq<Seq<char>>, name: Seq<char>, off: bool)
    requires
        crate::order::sorts::<String>(r, crate::preferences::switched(s, name, off)),
    ensures
        forall|x: Seq<char>| #[trigger]
            r.contains(x) <==> (if x == name {
                off
            } else {
                s.contains(x)
            }),
{
    crate::preferences::lemma_switched(s, name, off);
    crate::order::lemma_sorts_members::<String>(r, crate::preferences::switched(s, name, off));
    assert forall|x: Seq<char>| #[trigger]
        r.contains(x) <==> (if x == name {
            off
        } else {
            s.contains(x)
        }) by {
        assert(r.contains(x) <==> crate::preferences::switched(s, name, off).contains(x));
    }
}

proof fn lemma_same_place_of_names(a: Seq<EntryView>, b: Seq<EntryView>, name: Seq<char>)
    requires
        a.len() == b.len(),
        forall|i: int| 0 <= i < a.len() ==> (#[trigger] a[i]).name == b[i].name,
    ensures
        place_of(a, name) == place_of(b, name),
    decreases a.len(),
{
    if a.len() > 0 {
        assert(a[0].name == b[0].name);
        assert forall|i: int| 0 <= i < a.drop_first().len() implies (#[trigger] a.drop_first()[i]).name
            == b.drop_first()[i].name by {
            assert(a[i + 1].name == b[i + 1].name);
        }
        lemma_same_place_of_names(a.drop_first(), b.drop_first(), name);
    }
}

proof fn lemma_members_named(entries: Seq<EntryView>, group: Seq<char>, name: Seq<char>)
    ensures
        members(entries, group).contains(name) <==> exists|j: int|
            0 <= j < entries.len() && in_group(#[trigger] entries[j], group) && entries[j].name
                == name,
    decreases entries.len(),
{
    if entries.len() > 0 {
        let init = entries.drop_last();
        let last = entries.last();
        lemma_members_named(init, group, name);
        let m = members(init, group);
        if members(entries, group).contains(name) {
            let i = choose|i: int|
                0 <= i < members(entries, group).len() && members(entries, group)[i] == name;
            if in_group(last, group) && i == m.len() {
                assert(in_group(entries[entries.len() - 1], group));
            } else {
                assert(m[i] == name);
                let j = choose|j: int|
                    0 <= j < init.len() && in_group(#[trigger] init[j], group) && init[j].name
                        == name;
                assert(in_group(entries[j], group));
            }
        }
        if exists|j: int|
            0 <= j < entries.len() && in_group(#[trigger] entries[j], group) && entries[j].name
                == name {
            let j = choose|j: int|
                0 <= j < entries.len() && in_group(#[trigger] entries[j], group)
                    && entries[j].name == name;
            if j < init.len() {
                assert(in_group(init[j], group));
                let i = choose|i: int| 0 <= i < m.len() && m[i] == name;
                assert(members(entries, group)[i] == name);
            } else {
                assert(members(entries, group)[m.len() as int] == name);
            }
        }
    }
}

/// The last file of a name counts, and counts as a whole: a user's file stands
/// in the place of the shipped one of the same name.
pub proof fn law_last_file_of_a_name_counts(read: Seq<EntryView>, i: int)
    requires
        0 <= i < read.len(),
        forall|j: int| i < j < read.len() ==> (#[trigger] read[j]).name != read[i].name,
    ensures
        entry_named(by_name(read), read[i].name) == Some(read[i]),
    decreases read.len(),
{
    let init = read.drop_last();
    let before = by_name(init);
    let last = read.last();
    let name = read[i].name;
    lemma_place_of(before, last.name);
    lemma_place_of(before, name);
    lemma_place_of(by_name(read), name);
    if i == read.len() - 1 {
        let p = place_of(before, name);
        if p < before.len() {
            lemma_same_place(before, p, last, name);
        } else {
            lemma_place_behind(before, last);
        }
    } else {
        assert(init[i] == read[i]);
        assert forall|j: int| i < j < init.len() implies (#[trigger] init[j]).name != name by {
            assert(init[j] == read[j]);
        }
        law_last_file_of_a_name_counts(init, i);
        assert(read[read.len() - 1].name != name);
        let p = place_of(before, last.name);
        if p < before.len() {
            lemma_same_place(before, p, last, name);
        } else {
            lemma_place_before(before, last, name);
        }
    }
}

proof fn lemma_place_behind(entries: Seq<EntryView>, e: EntryView)
    requires
        place_of(entries, e.name) == entries.len(),
    ensures
        place_of(entries.push(e), e.name) == entries.len(),
    decreases entries.len(),
{
    if entries.len() > 0 {
        lemma_place_of(entries.drop_first(), e.name);
        assert(entries.push(e).drop_first() =~= entries.drop_first().push(e));
        lemma_place_behind(entries.drop_first(), e);
    }
}

proof fn lemma_place_before(entries: Seq<EntryView>, e: EntryView, name: Seq<char>)
    requires
        place_of(entries, name) < entries.len(),
    ensures
        place_of(entries.push(e), name) == place_of(entries, name),
    decreases entries.len(),
{
    if entries.len() > 0 && entries[0].name != name {
        assert(entries.push(e).drop_first() =~= entries.drop_first().push(e));
        lemma_place_before(entries.drop_first(), e, name);
    }
}

// ── Which files count ────────────────────────────────────────────────────────

/// Whether an entry takes part: it is enabled, was read, and names no
/// compositor but the running one.
pub open spec fn takes_part(e: EntryView, compositor: Option<Seq<char>>) -> bool {
    &&& e.enabled
    &&& e.config is Some
    &&& e.config->0.module.requires_compositor is None || (compositor is Some
        && e.config->0.module.requires_compositor->0@ == compositor->0)
}

/// The module for a window is the first that takes part, is for the layout and
/// lists the window's class.
pub proof fn law_first_module_of_the_class_applies(
    entries: Seq<EntryView>,
    compositor: Option<Seq<char>>,
    class: Seq<char>,
    layout: u16,
    i: int,
)
    requires
        0 <= i < entries.len(),
        takes_part(entries[i], compositor),
        entries[i].config->0.module.layout == layout,
        entries[i].config->0.module.match_window_class is Some,
        listed(entries[i].config->0.module.match_window_class->0, class),
        forall|j: int|
            0 <= j < i && takes_part(#[trigger] entries[j], compositor)
                && entries[j].config->0.module.layout == layout
                && entries[j].config->0.module.match_window_class is Some ==> !listed(
                entries[j].config->0.module.match_window_class->0,
                class,
            ),
    ensures
        applying_module(entries, compositor, Some(class), layout) == entries[i].config,
    decreases entries.len(),
{
    if i > 0 {
        let rest = entries.drop_first();
        assert(rest[i - 1] == entries[i]);
        assert forall|j: int|
            0 <= j < i - 1 && takes_part(#[trigger] rest[j], compositor)
                && rest[j].config->0.module.layout == layout
                && rest[j].config->0.module.match_window_class is Some implies !listed(
            rest[j].config->0.module.match_window_class->0,
            class,
        ) by {
            assert(rest[j] == entries[j + 1]);
        }
        law_first_module_of_the_class_applies(rest, compositor, class, layout, i - 1);
        assert(module_for_class(rest, compositor, class, layout) == entries[i].config) by {
            lemma_class_module_there(rest, compositor, class, layout, i - 1);
        }
    }
}

proof fn lemma_class_module_there(
    entries: Seq<EntryView>,
    compositor: Option<Seq<char>>,
    class: Seq<char>,
    layout: u16,
    i: int,
)
    requires
        0 <= i < entries.len(),
        takes_part(entries[i], compositor),
        entries[i].config->0.module.layout == layout,
        entries[i].config->0.module.match_window_class is Some,
        listed(entries[i].config->0.module.match_window_class->0, class),
    ensures
        module_for_class(entries, compositor, class, layout) is Some,
    decreases entries.len(),
{
    if i > 0 {
        assert(entries.drop_first()[i - 1] == entries[i]);
        lemma_class_module_there(entries.drop_first(), compositor, class, layout, i - 1);
    }
}

/// Where no module lists the window's class, the module for a further layout is
/// the first that takes part, is for that layout and names no class.
pub proof fn law_first_module_of_the_layout_applies(
    entries: Seq<EntryView>,
    compositor: Option<Seq<char>>,
    layout: u16,
    i: int,
)
    requires
        layout != 0,
        0 <= i < entries.len(),
        takes_part(entries[i], compositor),
        entries[i].config->0.module.layout == layout,
        entries[i].config->0.module.match_window_class is None,
        forall|j: int|
            0 <= j < i && takes_part(#[trigger] entries[j], compositor)
                && entries[j].config->0.module.layout == layout
                ==> entries[j].config->0.module.match_window_class is Some,
    ensures
        applying_module(entries, compositor, None, layout) == entries[i].config,
    decreases entries.len(),
{
    if i > 0 {
        let rest = entries.drop_first();
        assert(rest[i - 1] == entries[i]);
        assert forall|j: int|
            0 <= j < i - 1 && takes_part(#[trigger] rest[j], compositor)
                && rest[j].config->0.module.layout
                == layout implies rest[j].config->0.module.match_window_class is Some by {
            assert(rest[j] == entries[j + 1]);
        }
        law_first_module_of_the_layout_applies(rest, compositor, layout, i - 1);
    }
}

/// A module that is for a window class or a further layout goes on top of the
/// base; without one the first layout is the base by itself and any further
/// layout is empty.
pub proof fn law_base_alone_is_the_first_layout(
    entries: Seq<EntryView>,
    compositor: Option<Seq<char>>,
    base_name: Seq<char>,
    layout: u16,
    i: int,
)
    requires
        0 <= i < entries.len(),
        entries[i].name == base_name,
        forall|j: int| 0 <= j < i ==> (#[trigger] entries[j]).name != base_name,
        takes_part(entries[i], compositor),
        entries[i].config->0.device is Some,
        forall|j: int|
            0 <= j < entries.len() && (#[trigger] entries[j]).config is Some
                ==> entries[j].config->0.module.layout == 0,
    ensures
        in_effect(entries, compositor, base_name, None, 0) matches Some(c) && {
            let base = layered(entries, entries[i].config->0, compositor);
            c.bindings.remap == base.bindings.remap && c.bindings.commands
                == base.bindings.commands && c.bindings.movements == base.bindings.movements
                && c.settings == base.settings && c.trackpad == base.trackpad && c.name
                == base.name && c.device == base.device
        },
        layout != 0 ==> in_effect(entries, compositor, base_name, None, layout) is None,
{
    crate::layers::law_entries_are_found_by_name(entries, base_name, i);
    lemma_no_layout_module(entries, compositor, layout);
    lemma_no_layout_module(entries, compositor, 0);
}

proof fn lemma_no_layout_module(
    entries: Seq<EntryView>,
    compositor: Option<Seq<char>>,
    layout: u16,
)
    requires
        forall|j: int|
            0 <= j < entries.len() && (#[trigger] entries[j]).config is Some
                ==> entries[j].config->0.module.layout == 0,
    ensures
        module_for_layout(entries, compositor, layout) is None,
    decreases entries.len(),
{
    if entries.len() > 0 {
        let rest = entries.drop_first();
        assert forall|j: int|
            0 <= j < rest.len() && (#[trigger] rest[j]).config is Some
                implies rest[j].config->0.module.layout == 0 by {
            assert(rest[j] == entries[j + 1]);
        }
        lemma_no_layout_module(rest, compositor, layout);
    }
}

/// A file with a device is a base, one with a window class belongs to an
/// application, any other is a module, and of one that could not be read it is
/// unknown.
pub proof fn law_kinds_of_files(e: EntryView)
    ensures
        e.config is None ==> kind_of(e) == "unknown"@,
        e.config is Some && e.config->0.device is Some ==> kind_of(e) == "base"@,
        e.config is Some && e.config->0.device is None
            && e.config->0.module.match_window_class is Some ==> kind_of(e) == "app"@,
        e.config is Some && e.config->0.device is None
            && e.config->0.module.match_window_class is None ==> kind_of(e) == "module"@,
{
}

/// A base configuration is listed where it takes part, with its modules, and a
/// file that names window classes where that takes part; each once, in the
/// order of the files.
pub proof fn law_listed_files_take_part(
    entries: Seq<EntryView>,
    compositor: Option<Seq<char>>,
    n: int,
)
    requires
        0 <= n < entries.len(),
    ensures
        takes_part(entries[n], compositor) && entries[n].config->0.device is Some ==> base_list(
            entries,
            compositor,
            n + 1,
        ) == base_list(entries, compositor, n).push(
            layered(entries, entries[n].config->0, compositor),
        ),
        !takes_part(entries[n], compositor) || entries[n].config->0.device is None ==> base_list(
            entries,
            compositor,
            n + 1,
        ) == base_list(entries, compositor, n),
        takes_part(entries[n], compositor) && entries[n].config->0.module.match_window_class is Some
            ==> class_modules(entries, compositor, n + 1) == class_modules(
            entries,
            compositor,
            n,
        ).push(entries[n].config->0),
        !takes_part(entries[n], compositor)
            || entries[n].config->0.module.match_window_class is None ==> class_modules(
            entries,
            compositor,
            n + 1,
        ) == class_modules(entries, compositor, n),
        base_list(entries, compositor, 0) == Seq::<ConfigView>::empty(),
        class_modules(entries, compositor, 0) == Seq::<ConfigView>::empty(),
{
}

/// A device is driven where a base configuration that takes part declares a
/// name that occurs in the device's.
pub proof fn law_declared_devices_are_driven(
    e: EntryView,
    compositor: Option<Seq<char>>,
    evdev_name: Seq<char>,
)
    ensures
        drives(e, compositor, evdev_name) <==> takes_part(e, compositor)
            && e.config->0.device is Some && exists|k: int|
            0 <= k < (e.config->0.device->0).1.len() && crate::text::occurs(
                evdev_name,
                (#[trigger] (e.config->0.device->0).1[k])@,
            ),
{
}

/// Files are shown in their order, but for those that are meant for another
/// compositor. What could not be read is shown with its errors.
pub proof fn law_files_of_other_compositors_are_not_shown(
    entries: Seq<EntryView>,
    compositor: Option<Seq<char>>,
    n: int,
)
    requires
        0 <= n < entries.len(),
    ensures
        ({
            let e = entries[n];
            let elsewhere = e.config is Some && e.config->0.module.requires_compositor is Some && (
            compositor is None || e.config->0.module.requires_compositor->0@ != compositor->0);
            let before = summaries(entries, compositor, n);
            let after = summaries(entries, compositor, n + 1);
            &&& elsewhere ==> after == before
            &&& !elsewhere ==> after.len() == before.len() + 1 && after.drop_last() == before
                && after.last().name == e.name && after.last().enabled == e.enabled
                && after.last().errors == e.errors && (e.config is Some
                ==> after.last().exclusive_group == text_in(e.config->0.module.exclusive_group))
        }),
{
    let before = summaries(entries, compositor, n);
    assert(before.push(summary_of(entries, entries[n])).drop_last() =~= before);
}

/// The failure that is told is the first message of severity `error` of the
/// first file that could not be read and has one.
pub proof fn law_first_failure_is_told(entries: Seq<EntryView>, i: int, k: int)
    requires
        0 <= i < entries.len(),
        entries[i].config is None,
        0 <= k < entries[i].errors.len(),
        entries[i].errors[k].0 == "error"@,
        forall|j: int| 0 <= j < k ==> (#[trigger] entries[i].errors[j]).0 != "error"@,
        forall|a: int, b: int|
            #![trigger entries[a].errors[b]]
            0 <= a < i && entries[a].config is None && 0 <= b < entries[a].errors.len()
                ==> entries[a].errors[b].0 != "error"@,
    ensures
        first_failure(entries) == Some(entries[i].errors[k].1),
    decreases entries.len(),
{
    if i == 0 {
        lemma_first_error(entries[0].errors, k);
    } else {
        let rest = entries.drop_first();
        assert(rest[i - 1] == entries[i]);
        assert forall|a: int, b: int|
            #![trigger rest[a].errors[b]]
            0 <= a < i - 1 && rest[a].config is None && 0 <= b
                < rest[a].errors.len() implies rest[a].errors[b].0 != "error"@ by {
            assert(rest[a] == entries[a + 1]);
            assert(entries[a + 1].errors[b].0 != "error"@);
        }
        law_first_failure_is_told(rest, i - 1, k);
        if entries[0].config is None {
            assert forall|b: int| 0 <= b < entries[0].errors.len() implies (#[trigger]
            entries[0].errors[b]).0 != "error"@ by {}
            lemma_no_error(entries[0].errors);
        }
    }
}

proof fn lemma_first_error(errors: Seq<(Seq<char>, Seq<char>)>, k: int)
    requires
        0 <= k < errors.len(),
        errors[k].0 == "error"@,
        forall|j: int| 0 <= j < k ==> (#[trigger] errors[j]).0 != "error"@,
    ensures
        first_error(errors) == Some(errors[k].1),
    decreases errors.len(),
{
    if k > 0 {
        let rest = errors.drop_first();
        assert(rest[k - 1] == errors[k]);
        assert forall|j: int| 0 <= j < k - 1 implies (#[trigger] rest[j]).0 != "error"@ by {
            assert(rest[j] == errors[j + 1]);
        }
        assert(errors[0].0 != "error"@);
        lemma_first_error(rest, k - 1);
    }
}

proof fn lemma_no_error(errors: Seq<(Seq<char>, Seq<char>)>)
    requires
        forall|j: int| 0 <= j < errors.len() ==> (#[trigger] errors[j]).0 != "error"@,
    ensures
        first_error(errors) is None,
    decreases errors.len(),
{
    if errors.len() > 0 {
        let rest = errors.drop_first();
        assert forall|j: int| 0 <= j < rest.len() implies (#[trigger] rest[j]).0 != "error"@ by {
            assert(rest[j] == errors[j + 1]);
        }
        assert(errors[0].0 != "error"@);
        lemma_no_error(rest);
    }
}

/// Switching a file that is in no group changes that file alone, and records
/// it by its name. A file that is not there is refused, and so is switching on
/// one that could not be read.
pub proof fn law_switching_changes_one_file(
    old: RegistryView,
    new: RegistryView,
    name: Seq<char>,
    enabled: bool,
    t: Toggle,
    i: int,
)
    requires
        is_toggled(old, new, name, enabled, t),
        0 <= i <= old.entries.len(),
        i < old.entries.len() ==> old.entries[i].name == name,
        forall|j: int| 0 <= j < i ==> (#[trigger] old.entries[j]).name != name,
    ensures
        i == old.entries.len() ==> t == Toggle::Refused && new == old,
        i < old.entries.len() && enabled && old.entries[i].config is None ==> t == Toggle::Refused
            && new == old,
        i < old.entries.len() && old.entries[i].config is Some
            && old.entries[i].config->0.module.exclusive_group is None ==> {
            &&& t == Toggle::Applied
            &&& new.entries.len() == old.entries.len()
            &&& new.entries[i].enabled == enabled
            &&& forall|j: int|
                0 <= j < old.entries.len() && j != i ==> #[trigger] new.entries[j]
                    == old.entries[j]
            &&& new.preferences.modules_off.contains(name) == !enabled
            &&& new.preferences.choices == old.preferences.choices
            &&& new.preferences.groups_off == old.preferences.groups_off
        },
{
    crate::layers::law_entries_are_found_by_name(old.entries, name, i);
    if i < old.entries.len() && old.entries[i].config is Some
        && old.entries[i].config->0.module.exclusive_group is None {
        crate::preferences::law_switching_a_module_is_recorded(
            old.preferences,
            new.preferences,
            name,
            !enabled,
        );
    }
}

/// The base that plain modules are shown under is the first by name.
pub proof fn law_modules_are_shown_under_the_first_base(entries: Seq<EntryView>, i: int)
    requires
        0 <= i < entries.len(),
        entries[i].config is Some,
        entries[i].config->0.device is Some,
    ensures
        first_base(entries) is Some,
        !text_before(entries[i].config->0.name, first_base(entries)->0),
        exists|j: int|
            0 <= j < entries.len() && (#[trigger] entries[j]).config is Some
                && entries[j].config->0.device is Some && entries[j].config->0.name == first_base(
                entries,
            )->0,
    decreases entries.len(),
{
    let init = entries.drop_last();
    let before = first_base(init);
    assert forall|j: int| 0 <= j < init.len() implies #[trigger] init[j] == entries[j] by {}
    assert(entries[entries.len() - 1] == entries.last());
    if i < init.len() {
        law_modules_are_shown_under_the_first_base(init, i);
        let j = choose|j: int|
            0 <= j < init.len() && (#[trigger] init[j]).config is Some
                && init[j].config->0.device is Some && init[j].config->0.name == before->0;
        assert(entries[j] == init[j]);
        let e = entries.last();
        if e.config is Some && e.config->0.device is Some && text_before(
            e.config->0.name,
            before->0,
        ) {
            if text_before(entries[i].config->0.name, e.config->0.name) {
                <String as crate::order::Ordered>::before_transitive(
                    entries[i].config->0.name,
                    e.config->0.name,
                    before->0,
                );
            }
        }
    } else {
        <String as crate::order::Ordered>::before_irreflexive(entries[i].config->0.name);
        if before is Some {
            lemma_first_base_is_one(init);
            let j = choose|j: int|
                0 <= j < init.len() && (#[trigger] init[j]).config is Some
                    && init[j].config->0.device is Some && init[j].config->0.name == before->0;
            assert(entries[j] == init[j]);
        }
    }
}

proof fn lemma_first_base_is_one(entries: Seq<EntryView>)
    requires
        first_base(entries) is Some,
    ensures
        exists|j: int|
            0 <= j < entries.len() && (#[trigger] entries[j]).config is Some
                && entries[j].config->0.device is Some && entries[j].config->0.name == first_base(
                entries,
            )->0,
    decreases entries.len(),
{
    let init = entries.drop_last();
    assert(entries[entries.len() - 1] == entries.last());
    if first_base(init) is Some {
        lemma_first_base_is_one(init);
        let j = choose|j: int|
            0 <= j < init.len() && (#[trigger] init[j]).config is Some
                && init[j].config->0.device is Some && init[j].config->0.name == first_base(
                init,
            )->0;
        assert(entries[j] == init[j]);
    }
}

} // verus!
