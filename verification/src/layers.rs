//! Configuration files as entries, and how the modules among them are layered
//! around a base configuration.

use crate::config::{
    bound, deed, empty_config, law_upper_binding_decides, merged, ComboView, Config, ConfigView,
    Deed,
};
use crate::order::views;
use crate::text::{same_text, text_before, text_in, text_is_before};
use vstd::prelude::*;

verus! {

/// Something to tell about a file.
#[derive(Debug, Clone, PartialEq, Eq)]
pub struct ConfigError {
    /// `error` or `warning`.
    pub severity: &'static str,
    pub message: String,
}

impl View for ConfigError {
    type V = (Seq<char>, Seq<char>);

    open spec fn view(&self) -> (Seq<char>, Seq<char>) {
        (self.severity@, self.message@)
    }
}

impl ConfigError {
    pub fn copy(&self) -> (r: ConfigError)
        ensures
            r@ == self@,
    {
        ConfigError { severity: self.severity, message: self.message.clone() }
    }
}

/// A copy of a list of messages.
pub fn copy_errors(v: &Vec<ConfigError>) -> (r: Vec<ConfigError>)
    ensures
        views(r@) == views(v@),
{
    let mut r: Vec<ConfigError> = Vec::new();
    let mut i: usize = 0;
    assert(views(r@) =~= views(v@).take(0));
    while i < v.len()
        invariant
            i <= v@.len(),
            views(r@) == views(v@).take(i as int),
        decreases v@.len() - i,
    {
        let ghost before = views(r@);
        r.push(v[i].copy());
        i = i + 1;
        assert(views(r@) =~= before.push(v@[i - 1]@));
        assert(views(v@).take(i as int) =~= views(v@).take(i - 1).push(v@[i - 1]@));
    }
    assert(views(v@).take(i as int) =~= views(v@));
    r
}

/// One configuration file.
#[derive(Debug, PartialEq, Eq)]
pub struct ConfigEntry {
    /// The file's name without its ending.
    pub name: String,
    /// None where the file could not be read.
    pub config: Option<Config>,
    pub enabled: bool,
    /// Whether the file is the user's own rather than a shipped one.
    pub from_user: bool,
    pub errors: Vec<ConfigError>,
}

/// A configuration file, without its representation.
#[verifier::ext_equal]
pub struct EntryView {
    pub name: Seq<char>,
    pub config: Option<ConfigView>,
    pub enabled: bool,
    pub from_user: bool,
    pub errors: Seq<(Seq<char>, Seq<char>)>,
}

impl View for ConfigEntry {
    type V = EntryView;

    open spec fn view(&self) -> EntryView {
        EntryView {
            name: self.name@,
            config: match self.config {
                Some(c) => Some(c@),
                None => None,
            },
            enabled: self.enabled,
            from_user: self.from_user,
            errors: views(self.errors@),
        }
    }
}

impl Clone for ConfigEntry {
    fn clone(&self) -> (r: Self)
        ensures
            r@ == self@,
    {
        ConfigEntry {
            name: self.name.clone(),
            config: match &self.config {
                Some(c) => Some(c.clone()),
                None => None,
            },
            enabled: self.enabled,
            from_user: self.from_user,
            errors: copy_errors(&self.errors),
        }
    }
}

/// Whether two optional texts are the same.
pub fn same_option(a: &Option<String>, b: &Option<String>) -> (r: bool)
    ensures
        r == (text_in(*a) == text_in(*b)),
{
    match (a, b) {
        (Some(x), Some(y)) => same_text(x.as_str(), y.as_str()),
        (None, None) => true,
        _ => false,
    }
}

// ── Which entries take part ──────────────────────────────────────────────────

/// Whether a module's compositor is the one that is running, or it names none.
pub open spec fn gate_open(required: Option<String>, compositor: Option<Seq<char>>) -> bool {
    match required {
        Some(r) => compositor == Some(r@),
        None => true,
    }
}

/// The configuration of an entry that takes part: enabled, read without
/// failure, and not meant for another compositor.
pub open spec fn usable_config(e: EntryView, compositor: Option<Seq<char>>) -> Option<ConfigView> {
    match e.config {
        Some(c) => if e.enabled && gate_open(c.module.requires_compositor, compositor) {
            Some(c)
        } else {
            None
        },
        None => None,
    }
}

/// The configuration of an entry that takes part.
pub fn usable<'a>(entry: &'a ConfigEntry, compositor: &Option<String>) -> (r: Option<&'a Config>)
    ensures
        match r {
            Some(c) => usable_config(entry@, text_in(*compositor)) == Some(c@) && entry.config == Some(
                *c,
            ),
            None => usable_config(entry@, text_in(*compositor)) is None,
        },
{
    match &entry.config {
        Some(c) => {
            if !entry.enabled {
                return None;
            }
            if c.module.requires_compositor.is_some() && !same_option(
                &c.module.requires_compositor,
                compositor,
            ) {
                return None;
            }
            Some(c)
        },
        None => None,
    }
}

/// Whether an entry could take part, enabled or not. As long as the compositor
/// is unknown it rules nothing out.
pub open spec fn could_run(e: EntryView, compositor: Option<Seq<char>>) -> bool {
    match e.config {
        Some(c) => match (c.module.requires_compositor, compositor) {
            (Some(required), Some(running)) => required@ == running,
            _ => true,
        },
        None => false,
    }
}

/// Whether an entry could take part, enabled or not.
pub fn runnable(entry: &ConfigEntry, compositor: &Option<String>) -> (r: bool)
    ensures
        r == could_run(entry@, text_in(*compositor)),
{
    match &entry.config {
        Some(c) => match (&c.module.requires_compositor, compositor) {
            (Some(required), Some(running)) => same_text(required.as_str(), running.as_str()),
            _ => true,
        },
        None => false,
    }
}

/// Whether a configuration applies wherever it is merged: it names no device,
/// no window class and no layout but the first.
pub open spec fn is_plain(c: ConfigView) -> bool {
    c.device is None && c.module.match_window_class is None && c.module.layout == 0
}

/// Whether a configuration applies wherever it is merged.
pub fn is_plain_module(config: &Config) -> (r: bool)
    ensures
        r == is_plain(config@),
{
    config.device.is_none() && config.module.match_window_class.is_none() && config.module.layout
        == 0
}

// ── Finding entries ──────────────────────────────────────────────────────────

/// The place of the first entry of a name; the length where there is none.
pub open spec fn place_of(entries: Seq<EntryView>, name: Seq<char>) -> int
    decreases entries.len(),
{
    if entries.len() == 0 {
        0
    } else if entries[0].name == name {
        0
    } else {
        1 + place_of(entries.drop_first(), name)
    }
}

/// The first entry of a name.
pub open spec fn entry_named(entries: Seq<EntryView>, name: Seq<char>) -> Option<EntryView> {
    let i = place_of(entries, name);
    if i < entries.len() {
        Some(entries[i])
    } else {
        None
    }
}

/// The place of a name is where it occurs first.
pub proof fn lemma_place_of(entries: Seq<EntryView>, name: Seq<char>)
    ensures
        0 <= place_of(entries, name) <= entries.len(),
        place_of(entries, name) < entries.len() ==> entries[place_of(entries, name)].name == name,
        forall|j: int| 0 <= j < place_of(entries, name) ==> (#[trigger] entries[j]).name != name,
    decreases entries.len(),
{
    if entries.len() > 0 && entries[0].name != name {
        let rest = entries.drop_first();
        lemma_place_of(rest, name);
        assert forall|j: int| 0 <= j < place_of(entries, name) implies (#[trigger] entries[j]).name
            != name by {
            if j > 0 {
                assert(rest[j - 1] == entries[j]);
            }
        }
    }
}

/// Where an entry of a name stands.
pub fn find_entry(entries: &Vec<ConfigEntry>, name: &str) -> (r: Option<usize>)
    ensures
        match r {
            Some(i) => i == place_of(views(entries@), name@) && i < entries@.len(),
            None => place_of(views(entries@), name@) == entries@.len(),
        },
{
    let ghost all = views(entries@);
    proof {
        lemma_place_of(all, name@);
    }
    let mut i: usize = 0;
    while i < entries.len()
        invariant
            i <= entries@.len(),
            all == views(entries@),
            0 <= place_of(all, name@) <= all.len(),
            place_of(all, name@) < all.len() ==> all[place_of(all, name@)].name == name@,
            forall|j: int| 0 <= j < place_of(all, name@) ==> (#[trigger] all[j]).name != name@,
            forall|j: int| 0 <= j < i ==> (#[trigger] all[j]).name != name@,
        decreases entries@.len() - i,
    {
        if same_text(entries[i].name.as_str(), name) {
            assert(all[i as int].name == name@);
            return Some(i);
        }
        assert(all[i as int].name != name@);
        i = i + 1;
    }
    None
}

// ── Layers ───────────────────────────────────────────────────────────────────

/// A module with the information whether it is the user's own.
pub type Layer = (bool, ConfigView);

/// Whether one module is outranked by another: shipped ones by the user's own,
/// and then by name.
pub open spec fn outranked(a: Layer, b: Layer) -> bool {
    if a.0 == b.0 {
        text_before(a.1.name, b.1.name)
    } else {
        !a.0
    }
}

/// A list of modules by rank with one more behind those that do not outrank
/// it.
pub open spec fn ranked_in(s: Seq<Layer>, m: Layer) -> Seq<Layer>
    decreases s.len(),
{
    if s.len() > 0 && outranked(m, s.last()) {
        ranked_in(s.drop_last(), m).push(s.last())
    } else {
        s.push(m)
    }
}

/// The plain modules that take part, lowest rank first.
pub open spec fn layers(entries: Seq<EntryView>, compositor: Option<Seq<char>>) -> Seq<Layer>
    decreases entries.len(),
{
    if entries.len() == 0 {
        Seq::empty()
    } else {
        let before = layers(entries.drop_last(), compositor);
        match usable_config(entries.last(), compositor) {
            Some(c) => if is_plain(c) {
                ranked_in(before, (entries.last().from_user, c))
            } else {
                before
            },
            None => before,
        }
    }
}

/// Modules merged into one configuration, where the later outranks the earlier.
pub open spec fn stack_of(name: Seq<char>, s: Seq<Layer>) -> ConfigView
    decreases s.len(),
{
    if s.len() == 0 {
        empty_config(name)
    } else {
        merged(stack_of(name, s.drop_first()), s[0].1)
    }
}

/// How many shipped modules come first.
pub open spec fn shipped(s: Seq<Layer>) -> int
    decreases s.len(),
{
    if s.len() == 0 || s[0].0 {
        0
    } else {
        1 + shipped(s.drop_first())
    }
}

/// How many of the modules `s` go under the base configuration of a name: all
/// of them where the base is the user's own, else the shipped ones.
pub open spec fn split_of(entries: Seq<EntryView>, name: Seq<char>, s: Seq<Layer>) -> int {
    match entry_named(entries, name) {
        Some(e) => if e.from_user {
            s.len() as int
        } else {
            shipped(s)
        },
        None => shipped(s),
    }
}

/// A base configuration between the modules below it and those above it. Its
/// device, conditions, aliases and gaming mode stay its own.
pub open spec fn between(config: ConfigView, below: Seq<Layer>, above: Seq<Layer>) -> ConfigView {
    let on_top = merged(config, stack_of(config.name, below));
    let all = if above.len() > 0 {
        ConfigView {
            device: on_top.device,
            aliases: on_top.aliases,
            module: on_top.module,
            ..merged(stack_of(config.name, above), on_top)
        }
    } else {
        on_top
    };
    ConfigView {
        gaming_mode_config: config.gaming_mode_config,
        override_bindings: None,
        ..all
    }
}

/// A base configuration with every plain module that takes part: the shipped
/// modules under it, the user's own above it. Without any it stays as it is.
pub open spec fn layered(
    entries: Seq<EntryView>,
    config: ConfigView,
    compositor: Option<Seq<char>>,
) -> ConfigView {
    let s = layers(entries, compositor);
    let n = split_of(entries, config.name, s);
    if s.len() == 0 {
        config
    } else {
        between(config, s.take(n), s.skip(n))
    }
}

/// The layers that the entries at `order` are; where `by_owner` is off, whose
/// they are plays no part.
pub open spec fn layers_at(entries: Seq<ConfigEntry>, order: Seq<usize>, by_owner: bool) -> Seq<
    Layer,
> {
    Seq::new(
        order.len(),
        |i: int|
            (
                by_owner && entries[order[i] as int].from_user,
                entries[order[i] as int]@.config->0,
            ),
    )
}

/// Whether the entries at `order` exist and were read.
pub open spec fn readable_at(entries: Seq<ConfigEntry>, order: Seq<usize>) -> bool {
    forall|i: int|
        #![trigger order[i]]
        0 <= i < order.len() ==> order[i] < entries.len() && entries[order[i] as int].config is Some
}

proof fn lemma_ranked_in(s: Seq<Layer>, m: Layer, i: int)
    requires
        0 <= i <= s.len(),
        i > 0 ==> !outranked(m, s[i - 1]),
        forall|j: int| i <= j < s.len() ==> outranked(m, #[trigger] s[j]),
    ensures
        ranked_in(s, m) == s.insert(i, m),
    decreases s.len(),
{
    if i == s.len() {
        assert(s.insert(i, m) =~= s.push(m));
    } else {
        assert(outranked(m, s[s.len() - 1]));
        let init = s.drop_last();
        lemma_ranked_in(init, m, i);
        assert(s.insert(i, m) =~= init.insert(i, m).push(s.last()));
    }
}

fn is_outranked(a_user: bool, a: &Config, b_user: bool, b: &Config) -> (r: bool)
    ensures
        r == outranked((a_user, a@), (b_user, b@)),
{
    if a_user == b_user {
        text_is_before(a.name.as_str(), b.name.as_str())
    } else {
        !a_user
    }
}

/// The configuration of an entry that was read.
pub(crate) fn config_at(entries: &Vec<ConfigEntry>, i: usize) -> (r: &Config)
    requires
        i < entries@.len(),
        entries@[i as int].config is Some,
    ensures
        entries@[i as int].config == Some(*r),
        r@ == entries@[i as int]@.config->0,
{
    entries[i].config.as_ref().unwrap()
}

/// Put the entry at `n` among those at `order`, behind those that do not
/// outrank it.
pub(crate) fn rank_entry(
    entries: &Vec<ConfigEntry>,
    order: &mut Vec<usize>,
    n: usize,
    by_owner: bool,
)
    requires
        n < entries@.len(),
        entries@[n as int].config is Some,
        readable_at(entries@, old(order)@),
    ensures
        readable_at(entries@, final(order)@),
        layers_at(entries@, final(order)@, by_owner) == ranked_in(
            layers_at(entries@, old(order)@, by_owner),
            (by_owner && entries@[n as int].from_user, entries@[n as int]@.config->0),
        ),
{
    let ghost s = layers_at(entries@, order@, by_owner);
    let module: &Config = config_at(entries, n);
    let own: bool = by_owner && entries[n].from_user;
    let ghost m: Layer = (own, module@);
    let mut i: usize = order.len();
    while i > 0 && is_outranked(
        own,
        module,
        by_owner && entries[order[i - 1]].from_user,
        config_at(entries, order[i - 1]),
    )
        invariant
            i <= order@.len(),
            readable_at(entries@, order@),
            order@ == old(order)@,
            s == layers_at(entries@, order@, by_owner),
            m == (own, module@),
            forall|j: int| i <= j < s.len() ==> outranked(m, #[trigger] s[j]),
        decreases i,
    {
        i = i - 1;
        assert(s[i as int] == (
            by_owner && entries@[order@[i as int] as int].from_user,
            entries@[order@[i as int] as int]@.config->0,
        ));
    }
    proof {
        if i > 0 {
            assert(s[i - 1] == (
                by_owner && entries@[order@[i - 1] as int].from_user,
                entries@[order@[i - 1] as int]@.config->0,
            ));
        }
        lemma_ranked_in(s, m, i as int);
    }
    let ghost before = order@;
    order.insert(i, n);
    proof {
        assert forall|k: int| #![trigger order@[k]] 0 <= k < order@.len() implies order@[k]
            < entries@.len() && entries@[order@[k] as int].config is Some by {
            if k < i {
                assert(order@[k] == before[k]);
            } else if k > i {
                assert(order@[k] == before[k - 1]);
            }
        }
        assert(layers_at(entries@, order@, by_owner) =~= s.insert(i as int, m));
    }
}

/// The places of the plain modules that take part, lowest rank first.
fn module_order(entries: &Vec<ConfigEntry>, compositor: &Option<String>) -> (r: Vec<usize>)
    ensures
        readable_at(entries@, r@),
        layers_at(entries@, r@, true) == layers(views(entries@), text_in(*compositor)),
{
    let ghost all = views(entries@);
    let ghost c = text_in(*compositor);
    let mut r: Vec<usize> = Vec::new();
    let mut n: usize = 0;
    assert(layers_at(entries@, r@, true) =~= layers(all.take(0), c));
    while n < entries.len()
        invariant
            n <= entries@.len(),
            all == views(entries@),
            c == text_in(*compositor),
            readable_at(entries@, r@),
            layers_at(entries@, r@, true) == layers(all.take(n as int), c),
        decreases entries@.len() - n,
    {
        proof {
            assert(all.take(n + 1).drop_last() =~= all.take(n as int));
            assert(all.take(n + 1).last() == entries@[n as int]@);
        }
        if let Some(module) = usable(&entries[n], compositor) {
            if is_plain_module(module) {
                rank_entry(entries, &mut r, n, true);
            }
        }
        n = n + 1;
    }
    assert(all.take(n as int) =~= all);
    r
}

/// The entries at `order`, from `from` up to `to`, merged into one
/// configuration.
fn stack(entries: &Vec<ConfigEntry>, order: &Vec<usize>, from: usize, to: usize, name: &str) -> (r:
    Config)
    requires
        readable_at(entries@, order@),
        from <= to <= order@.len(),
    ensures
        r@ == stack_of(
            name@,
            layers_at(entries@, order@, true).subrange(from as int, to as int),
        ),
{
    let ghost s = layers_at(entries@, order@, true).subrange(from as int, to as int);
    let mut r = Config::new_empty(name.to_owned());
    let mut i: usize = to;
    assert(s.skip(to - from) =~= Seq::<Layer>::empty());
    while i > from
        invariant
            from <= i <= to <= order@.len(),
            readable_at(entries@, order@),
            s == layers_at(entries@, order@, true).subrange(from as int, to as int),
            r@ == stack_of(name@, s.skip(i - from)),
        decreases i,
    {
        i = i - 1;
        proof {
            assert(s.skip(i - from).drop_first() =~= s.skip(i + 1 - from));
            assert(s.skip(i - from)[0] == layers_at(entries@, order@, true)[i as int]);
            assert(order@[i as int] < entries@.len());
        }
        r.merge_base(config_at(entries, order[i]));
    }
    assert(s.skip(0) =~= s);
    r
}

proof fn lemma_shipped(s: Seq<Layer>, n: int)
    requires
        0 <= n <= s.len(),
        forall|j: int| 0 <= j < n ==> !(#[trigger] s[j]).0,
        n < s.len() ==> s[n].0,
    ensures
        shipped(s) == n,
    decreases s.len(),
{
    if n > 0 {
        assert(!s[0].0);
        let rest = s.drop_first();
        assert forall|j: int| 0 <= j < n - 1 implies !(#[trigger] rest[j]).0 by {
            assert(rest[j] == s[j + 1]);
        }
        if n < s.len() {
            assert(rest[n - 1] == s[n]);
        }
        lemma_shipped(rest, n - 1);
    }
}

fn shipped_modules(entries: &Vec<ConfigEntry>, order: &Vec<usize>) -> (r: usize)
    requires
        readable_at(entries@, order@),
    ensures
        r == shipped(layers_at(entries@, order@, true)),
        r <= order@.len(),
{
    let ghost s = layers_at(entries@, order@, true);
    let mut i: usize = 0;
    while i < order.len() && !entries[order[i]].from_user
        invariant
            i <= order@.len(),
            readable_at(entries@, order@),
            s == layers_at(entries@, order@, true),
            forall|j: int| 0 <= j < i ==> !(#[trigger] s[j]).0,
        decreases order@.len() - i,
    {
        i = i + 1;
    }
    proof {
        lemma_shipped(s, i as int);
    }
    i
}

/// A base configuration with every plain module that takes part.
pub fn with_modules(
    entries: &Vec<ConfigEntry>,
    config: &Config,
    compositor: &Option<String>,
) -> (r: Config)
    ensures
        r@ == layered(views(entries@), config@, text_in(*compositor)),
{
    let order: Vec<usize> = module_order(entries, compositor);
    let ghost s = layers(views(entries@), text_in(*compositor));
    if order.len() == 0 {
        return config.clone();
    }
    let split: usize = match find_entry(entries, config.name.as_str()) {
        Some(i) => if entries[i].from_user {
            order.len()
        } else {
            shipped_modules(entries, &order)
        },
        None => shipped_modules(entries, &order),
    };
    assert(split == split_of(views(entries@), config@.name, s));
    let below: Config = stack(entries, &order, 0, split, config.name.as_str());
    assert(s.subrange(0, split as int) =~= s.take(split as int));
    let mut all: Config = config.clone();
    all.merge_base(&below);
    if split < order.len() {
        let mut top: Config = stack(entries, &order, split, order.len(), config.name.as_str());
        assert(s.subrange(split as int, s.len() as int) =~= s.skip(split as int));
        top.merge_base(&all);
        top.device =
        match &all.device {
            Some(d) => Some(d.copy()),
            None => None,
        };
        top.aliases = all.aliases.clone();
        top.module = all.module.copy();
        all = top;
    }
    all.gaming_mode_config = config.gaming_mode_config.copy();
    all.override_bindings = None;
    all
}

// ── Laws ─────────────────────────────────────────────────────────────────────

/// What the highest of several layers that bind a combo makes of it.
pub open spec fn top_deed(s: Seq<Layer>, c: ComboView) -> Option<Deed>
    decreases s.len(),
{
    if s.len() == 0 {
        None
    } else if bound(s.last().1.bindings).contains(c) {
        Some(deed(s.last().1.bindings, c))
    } else {
        top_deed(s.drop_last(), c)
    }
}

proof fn lemma_top_deed_first(s: Seq<Layer>, c: ComboView)
    requires
        s.len() > 0,
    ensures
        top_deed(s, c) == match top_deed(s.drop_first(), c) {
            Some(d) => Some(d),
            None => if bound(s[0].1.bindings).contains(c) {
                Some(deed(s[0].1.bindings, c))
            } else {
                None
            },
        },
    decreases s.len(),
{
    if s.len() == 1 {
        assert(s.drop_first() =~= Seq::<Layer>::empty());
        assert(s.drop_last() =~= Seq::<Layer>::empty());
        assert(s.last() == s[0]);
    } else {
        let rest = s.drop_first();
        assert(rest.last() == s.last());
        assert(rest.drop_last() =~= s.drop_last().drop_first());
        if !bound(s.last().1.bindings).contains(c) {
            lemma_top_deed_first(s.drop_last(), c);
        }
    }
}

/// In a stack of modules, a combo does what the highest module that binds it
/// says.
pub proof fn law_highest_module_decides(name: Seq<char>, s: Seq<Layer>, c: ComboView)
    ensures
        top_deed(s, c) matches Some(d) ==> deed(stack_of(name, s).bindings, c) == d,
        bound(stack_of(name, s).bindings).contains(c) <==> top_deed(s, c) is Some,
    decreases s.len(),
{
    if s.len() > 0 {
        law_highest_module_decides(name, s.drop_first(), c);
        lemma_top_deed_first(s, c);
        law_upper_binding_decides(
            stack_of(name, s.drop_first()).bindings,
            s[0].1.bindings,
            c,
        );
    }
}

/// A combo does what the user's own modules say; else what the base says; else
/// what the modules below it say.
pub proof fn law_user_over_base_over_shipped(
    config: ConfigView,
    below: Seq<Layer>,
    above: Seq<Layer>,
    c: ComboView,
)
    ensures
        deed(between(config, below, above).bindings, c) == match top_deed(above, c) {
            Some(d) => d,
            None => if bound(config.bindings).contains(c) {
                deed(config.bindings, c)
            } else {
                match top_deed(below, c) {
                    Some(d) => d,
                    None => Deed::Nothing,
                }
            },
        },
{
    let low = stack_of(config.name, below);
    law_highest_module_decides(config.name, below, c);
    law_upper_binding_decides(config.bindings, low.bindings, c);
    let on_top = merged(config, low);
    if above.len() > 0 {
        law_highest_module_decides(config.name, above, c);
        law_upper_binding_decides(
            stack_of(config.name, above).bindings,
            on_top.bindings,
            c,
        );
    }
}

/// What a base configuration is does not change with the modules around it.
pub proof fn law_modules_leave_the_base_what_it_is(
    entries: Seq<EntryView>,
    config: ConfigView,
    compositor: Option<Seq<char>>,
)
    ensures
        layered(entries, config, compositor).name == config.name,
        layered(entries, config, compositor).device == config.device,
        layered(entries, config, compositor).module == config.module,
        layered(entries, config, compositor).aliases == config.aliases,
        layered(entries, config, compositor).gaming_mode_config == config.gaming_mode_config,
{
    let s = layers(entries, compositor);
    let n = split_of(entries, config.name, s);
    lemma_stack_name(config.name, s.skip(n));
}

proof fn lemma_stack_name(name: Seq<char>, s: Seq<Layer>)
    ensures
        stack_of(name, s).name == name,
    decreases s.len(),
{
    if s.len() > 0 {
        lemma_stack_name(name, s.drop_first());
    }
}

/// Whether a list of modules is in the order of rank.
pub open spec fn by_rank(s: Seq<Layer>) -> bool {
    forall|i: int, j: int| #![trigger s[i], s[j]] 0 <= i < j < s.len() ==> !outranked(s[j], s[i])
}

proof fn lemma_outranked_chain(a: Layer, b: Layer, c: Layer)
    requires
        outranked(a, b),
        !outranked(c, b),
    ensures
        outranked(a, c),
{
    if a.0 == b.0 && b.0 == c.0 {
        <String as crate::order::Ordered>::before_total(b.1.name, c.1.name);
        if text_before(b.1.name, c.1.name) {
            <String as crate::order::Ordered>::before_transitive(a.1.name, b.1.name, c.1.name);
        }
    }
}

proof fn lemma_ranked_in_order(s: Seq<Layer>, m: Layer)
    requires
        by_rank(s),
    ensures
        by_rank(ranked_in(s, m)),
        forall|x: Layer| #[trigger] ranked_in(s, m).contains(x) <==> s.contains(x) || x == m,
    decreases s.len(),
{
    let r = ranked_in(s, m);
    if s.len() > 0 && outranked(m, s.last()) {
        let init = s.drop_last();
        assert(by_rank(init));
        lemma_ranked_in_order(init, m);
        let q = ranked_in(init, m);
        assert forall|i: int, j: int| #![trigger r[i], r[j]] 0 <= i < j < r.len() implies !outranked(
            r[j],
            r[i],
        ) by {
            if j == q.len() {
                assert(q.contains(q[i]));
                if q[i] == m {
                    if outranked(s.last(), m) {
                        if m.0 == s.last().0 {
                            <String as crate::order::Ordered>::before_transitive(
                                m.1.name,
                                s.last().1.name,
                                m.1.name,
                            );
                            <String as crate::order::Ordered>::before_irreflexive(m.1.name);
                        }
                    }
                } else {
                    let k = choose|k: int| 0 <= k < init.len() && init[k] == q[i];
                    assert(!outranked(s[s.len() - 1], s[k]));
                }
            }
        }
        assert forall|x: Layer| #[trigger] r.contains(x) <==> s.contains(x) || x == m by {
            assert(q.contains(x) <==> init.contains(x) || x == m);
            lemma_push_contains(q, s.last(), x);
            lemma_push_contains(init, s.last(), x);
            assert(init.push(s.last()) =~= s);
        }
    } else {
        assert forall|i: int, j: int| #![trigger r[i], r[j]] 0 <= i < j < r.len() implies !outranked(
            r[j],
            r[i],
        ) by {
            if j == s.len() && outranked(m, s[i]) {
                if i < s.len() - 1 {
                    assert(!outranked(s[s.len() - 1], s[i]));
                    lemma_outranked_chain(m, s[i], s.last());
                }
            }
        }
        assert forall|x: Layer| #[trigger] r.contains(x) <==> s.contains(x) || x == m by {
            lemma_push_contains(s, m, x);
        }
    }
}

proof fn lemma_push_contains(s: Seq<Layer>, m: Layer, x: Layer)
    ensures
        s.push(m).contains(x) <==> s.contains(x) || x == m,
{
    let all = s.push(m);
    assert(all[s.len() as int] == m);
    if s.contains(x) {
        let i = choose|i: int| 0 <= i < s.len() && s[i] == x;
        assert(all[i] == x);
    }
    if all.contains(x) {
        let i = choose|i: int| 0 <= i < all.len() && all[i] == x;
        if i < s.len() {
            assert(s[i] == x);
        }
    }
}

/// The modules that are layered are in the order of rank: shipped ones first,
/// then by name. They are the plain modules that take part, and no others.
pub proof fn law_layers_are_ranked(entries: Seq<EntryView>, compositor: Option<Seq<char>>)
    ensures
        by_rank(layers(entries, compositor)),
        forall|x: Layer| #[trigger]
            layers(entries, compositor).contains(x) <==> exists|i: int|
                0 <= i < entries.len() && is_layer(#[trigger] entries[i], compositor, x),
    decreases entries.len(),
{
    let s = layers(entries, compositor);
    if entries.len() > 0 {
        let init = entries.drop_last();
        let e = entries.last();
        let before = layers(init, compositor);
        law_layers_are_ranked(init, compositor);
        if let Some(c) = usable_config(e, compositor) {
            if is_plain(c) {
                lemma_ranked_in_order(before, (e.from_user, c));
            }
        }
        assert forall|x: Layer| #[trigger] s.contains(x) <==> exists|i: int|
            0 <= i < entries.len() && is_layer(#[trigger] entries[i], compositor, x) by {
            assert(before.contains(x) <==> exists|i: int|
                0 <= i < init.len() && is_layer(#[trigger] init[i], compositor, x));
            if before.contains(x) {
                let i = choose|i: int|
                    0 <= i < init.len() && is_layer(#[trigger] init[i], compositor, x);
                assert(is_layer(entries[i], compositor, x));
            }
            if is_layer(e, compositor, x) {
                assert(is_layer(entries[entries.len() - 1], compositor, x));
                assert(s.contains(x));
            }
            if exists|i: int|
                0 <= i < entries.len() && is_layer(#[trigger] entries[i], compositor, x) {
                let i = choose|i: int|
                    0 <= i < entries.len() && is_layer(#[trigger] entries[i], compositor, x);
                if i < init.len() {
                    assert(is_layer(init[i], compositor, x));
                }
            }
        }
    }
}

/// Whether an entry is the plain module `x` and takes part.
pub open spec fn is_layer(e: EntryView, compositor: Option<Seq<char>>, x: Layer) -> bool {
    usable_config(e, compositor) matches Some(c) && is_plain(c) && x == (e.from_user, c)
}

/// A module is layered where it is enabled, was read, names no compositor but
/// the running one, and names neither a device nor a window class nor a further
/// layout; and it is layered as what it says.
pub proof fn law_only_modules_in_use_are_layered(
    e: EntryView,
    compositor: Option<Seq<char>>,
    x: Layer,
)
    ensures
        is_layer(e, compositor, x) <==> {
            &&& e.enabled
            &&& e.config matches Some(c) && {
                &&& c.module.requires_compositor is None || (compositor is Some
                    && c.module.requires_compositor->0@ == compositor->0)
                &&& c.device is None
                &&& c.module.match_window_class is None
                &&& c.module.layout == 0
                &&& x.0 == e.from_user
                &&& x.1 == c
            }
        },
{
}

/// The user's own modules rank above the shipped ones, whatever they are
/// called. Of two that belong to the same, the one whose name comes later ranks
/// higher.
pub proof fn law_own_modules_rank_higher(a: ConfigView, b: ConfigView, owner: bool)
    ensures
        outranked((false, a), (true, b)),
        !outranked((true, a), (false, b)),
        outranked((owner, a), (owner, b)) <==> text_before(a.name, b.name),
{
}

/// A base configuration of the user's own goes above every module. A shipped
/// one goes above the shipped modules and below the user's own.
pub proof fn law_base_stands_between_the_modules(
    entries: Seq<EntryView>,
    name: Seq<char>,
    compositor: Option<Seq<char>>,
    i: int,
)
    requires
        0 <= i < layers(entries, compositor).len(),
    ensures
        ({
            let s = layers(entries, compositor);
            let base = entry_named(entries, name);
            let below = i < split_of(entries, name, s);
            &&& base is Some && base->0.from_user ==> below
            &&& base is None || !base->0.from_user ==> (below <==> !s[i].0)
        }),
{
    let s = layers(entries, compositor);
    law_layers_are_ranked(entries, compositor);
    lemma_shipped_come_first(s);
    let n = shipped(s);
    if i > n {
        assert(!outranked(s[i], s[n]));
    }
}

proof fn lemma_shipped_come_first(s: Seq<Layer>)
    ensures
        0 <= shipped(s) <= s.len(),
        shipped(s) < s.len() ==> s[shipped(s)].0,
        forall|j: int| 0 <= j < shipped(s) ==> !(#[trigger] s[j]).0,
    decreases s.len(),
{
    if s.len() > 0 && !s[0].0 {
        let rest = s.drop_first();
        lemma_shipped_come_first(rest);
        assert forall|j: int| 0 <= j < shipped(s) implies !(#[trigger] s[j]).0 by {
            if j > 0 {
                assert(s[j] == rest[j - 1]);
            }
        }
    }
}

/// An entry is found by its name, the first one of it; and none is found where
/// no entry has the name.
pub proof fn law_entries_are_found_by_name(entries: Seq<EntryView>, name: Seq<char>, i: int)
    requires
        0 <= i <= entries.len(),
        i < entries.len() ==> entries[i].name == name,
        forall|j: int| 0 <= j < i ==> (#[trigger] entries[j]).name != name,
    ensures
        place_of(entries, name) == i,
        i < entries.len() ==> entry_named(entries, name) == Some(entries[i]),
        i == entries.len() ==> entry_named(entries, name) is None,
{
    lemma_place_of(entries, name);
    let p = place_of(entries, name);
    if p < i {
        assert(entries[p].name != name);
    }
}

/// A setting of a base configuration between modules is that of the highest
/// that makes it: one above, the base itself, or one below.
pub proof fn law_settings_of_the_highest(
    config: ConfigView,
    below: Seq<Layer>,
    above: Seq<Layer>,
    key: Seq<char>,
)
    ensures
        ({
            let all = between(config, below, above).settings;
            &&& top_setting(above, key) matches Some(v) ==> all.contains_key(key) && all[key] == v
            &&& top_setting(above, key) is None && config.settings.contains_key(key)
                ==> all.contains_key(key) && all[key] == config.settings[key]
            &&& top_setting(above, key) is None && !config.settings.contains_key(key) ==> {
                &&& top_setting(below, key) matches Some(v) ==> all.contains_key(key) && all[key]
                    == v
                &&& top_setting(below, key) is None ==> !all.contains_key(key)
            }
        }),
{
    lemma_stack_setting(config.name, below, key);
    lemma_stack_setting(config.name, above, key);
}

/// The setting of the highest of several layers that makes it.
pub open spec fn top_setting(s: Seq<Layer>, key: Seq<char>) -> Option<Seq<char>>
    decreases s.len(),
{
    if s.len() == 0 {
        None
    } else if s.last().1.settings.contains_key(key) {
        Some(s.last().1.settings[key])
    } else {
        top_setting(s.drop_last(), key)
    }
}

proof fn lemma_top_setting_first(s: Seq<Layer>, key: Seq<char>)
    requires
        s.len() > 0,
    ensures
        top_setting(s, key) == match top_setting(s.drop_first(), key) {
            Some(v) => Some(v),
            None => if s[0].1.settings.contains_key(key) {
                Some(s[0].1.settings[key])
            } else {
                None
            },
        },
    decreases s.len(),
{
    if s.len() == 1 {
        assert(s.drop_last().len() == 0);
        assert(s.drop_first().len() == 0);
    } else {
        lemma_top_setting_first(s.drop_last(), key);
        assert(s.drop_first().last() == s.last());
        assert(s.drop_first().drop_last() =~= s.drop_last().drop_first());
        assert(s.drop_last()[0] == s[0]);
    }
}

proof fn lemma_stack_setting(name: Seq<char>, s: Seq<Layer>, key: Seq<char>)
    ensures
        top_setting(s, key) matches Some(v) ==> stack_of(name, s).settings.contains_key(key)
            && stack_of(name, s).settings[key] == v,
        top_setting(s, key) is None ==> !stack_of(name, s).settings.contains_key(key),
    decreases s.len(),
{
    if s.len() > 0 {
        lemma_stack_setting(name, s.drop_first(), key);
        lemma_top_setting_first(s, key);
    }
}

} // verus!
