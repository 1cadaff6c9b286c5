//! Files that get in each other's way: modules that bind the same buttons and
//! base configurations that claim the same device.

use crate::config::{bound, BindingsView, Bindings, ComboView, Config, ConfigView};
use crate::event::{event_name, event_to_str, Combo, Event};
use crate::hints::{quoted, quoted_text};
use crate::keyed::KeyedList;
use crate::layers::{
    config_at, find_entry, is_plain, is_plain_module, layers_at, place_of, rank_entry, ranked_in,
    readable_at, same_option, ConfigEntry, ConfigError, EntryView, Layer,
};
use crate::order::{
    ascending, lemma_arrange, lemma_ascending_unique, put_in_place, views, arrange, place,
};
use crate::text::{contains_text, decimal, joined, joined3, number_text, occurs, same_text, text_in};
use vstd::prelude::*;

verus! {

/// Whether two modules can be active at once: not if they are meant for
/// different compositors.
pub open spec fn overlap(a: Option<Seq<char>>, b: Option<Seq<char>>) -> bool {
    match (a, b) {
        (Some(x), Some(y)) => x == y,
        _ => true,
    }
}

/// Whether two modules can be active at once.
pub fn gates_overlap(a: &Option<String>, b: &Option<String>) -> (r: bool)
    ensures
        r == overlap(text_in(*a), text_in(*b)),
{
    match (a, b) {
        (Some(x), Some(y)) => same_text(x.as_str(), y.as_str()),
        _ => true,
    }
}

// ── Shared combos ────────────────────────────────────────────────────────────

/// Whether `s` lists the members of `c` in ascending order.
pub open spec fn lists_combos(s: Seq<ComboView>, c: Set<ComboView>) -> bool {
    ascending::<Combo>(s) && forall|x: ComboView| #[trigger] s.contains(x) <==> c.contains(x)
}

/// The combos that both of two configurations bind, in ascending order.
pub open spec fn shared_combos(a: BindingsView, b: BindingsView) -> Seq<ComboView> {
    choose|s: Seq<ComboView>| lists_combos(s, bound(a).intersect(bound(b)))
}

fn is_bound(b: &Bindings, c: &Combo) -> (r: bool)
    ensures
        r == bound(b@).contains(c@),
{
    b.remap.contains_key(c) || b.commands.contains_key(c) || b.movements.contains_key(c)
}

/// Add the combos of a table that `other` binds too.
fn add_shared<V: crate::keyed::Replicate>(
    r: &mut Vec<Combo>,
    table: &KeyedList<Combo, V>,
    other: &Bindings,
)
    requires
        ascending::<Combo>(views(old(r)@)),
    ensures
        ascending::<Combo>(views(final(r)@)),
        forall|x: ComboView| #[trigger]
            views(final(r)@).contains(x) <==> (views(old(r)@).contains(x) || (
            table@.contains_key(x) && bound(other@).contains(x))),
{
    let n: usize = table.len();
    let ghost items = table.items();
    let ghost was = views(r@);
    let mut i: usize = 0;
    while i < n
        invariant
            i <= n == items.len(),
            items == table.items(),
            crate::keyed::distinct_keys(items),
            ascending::<Combo>(views(r@)),
            forall|x: ComboView| #[trigger]
                views(r@).contains(x) <==> (was.contains(x) || (bound(other@).contains(x) && exists|
                    j: int,
                | 0 <= j < i && (#[trigger] items[j]).0 == x)),
        decreases n - i,
    {
        let ghost before = views(r@);
        let c: &Combo = table.key_at(i);
        if is_bound(other, c) {
            put_in_place(r, Combo::of(c.trigger, &c.held));
            proof {
                lemma_place_members(before, c@);
            }
        }
        proof {
            assert forall|x: ComboView| #[trigger]
                views(r@).contains(x) <==> (was.contains(x) || (bound(other@).contains(x) && exists|
                    j: int,
                | 0 <= j < i + 1 && (#[trigger] items[j]).0 == x)) by {
                assert(items[i as int].0 == c@);
                assert(before.contains(x) <==> (was.contains(x) || (bound(other@).contains(x)
                    && exists|j: int| 0 <= j < i && (#[trigger] items[j]).0 == x)));
            }
        }
        i = i + 1;
    }
    proof {
        table.lemma_items();
    }
}

/// Putting a combo in its place adds it and nothing else.
proof fn lemma_place_members(s: Seq<ComboView>, c: ComboView)
    requires
        ascending::<Combo>(s),
    ensures
        ascending::<Combo>(place::<Combo>(s, c)),
        forall|x: ComboView| #[trigger]
            place::<Combo>(s, c).contains(x) <==> (s.contains(x) || x == c),
{
    lemma_arrange::<Combo>(s);
    lemma_ascending_unique::<Combo>(arrange::<Combo>(s), s);
    let more = s.push(c);
    assert(more.drop_last() =~= s);
    lemma_arrange::<Combo>(more);
    assert forall|x: ComboView| #[trigger] place::<Combo>(s, c).contains(x) <==> (s.contains(x)
        || x == c) by {
        assert(arrange::<Combo>(more).contains(x) <==> more.contains(x));
        if s.contains(x) {
            let i = choose|i: int| 0 <= i < s.len() && s[i] == x;
            assert(more[i] == x);
        }
        assert(more[s.len() as int] == c);
        if more.contains(x) {
            let i = choose|i: int| 0 <= i < more.len() && more[i] == x;
            if i < s.len() {
                assert(s[i] == x);
            }
        }
    }
}

/// The combos that both of two configurations bind.
fn shared(a: &Bindings, b: &Bindings) -> (r: Vec<Combo>)
    ensures
        views(r@) == shared_combos(a@, b@),
{
    let mut r: Vec<Combo> = Vec::new();
    assert(views(r@) =~= Seq::<ComboView>::empty());
    add_shared(&mut r, &a.remap, b);
    add_shared(&mut r, &a.commands, b);
    add_shared(&mut r, &a.movements, b);
    proof {
        let both = bound(a@).intersect(bound(b@));
        assert(lists_combos(views(r@), both));
        let s = shared_combos(a@, b@);
        assert forall|x: ComboView| #[trigger] s.contains(x) <==> views(r@).contains(x) by {
            assert(both.contains(x) <==> s.contains(x));
        }
        lemma_ascending_unique::<Combo>(s, views(r@));
    }
    r
}

// ── Messages ─────────────────────────────────────────────────────────────────

/// How an event is shown in a message.
pub open spec fn event_shown(e: Event) -> Seq<char> {
    match e {
        Event::Axis(_) => "Axis("@ + event_name(e) + ")"@,
        Event::Key(_) => "Key("@ + event_name(e) + ")"@,
        Event::Hold => event_name(e),
    }
}

fn show_event(e: &Event) -> (r: String)
    ensures
        r@ == event_shown(*e),
{
    let name: String = event_to_str(e);
    match e {
        Event::Axis(_) => joined3("Axis(", name.as_str(), ")"),
        Event::Key(_) => joined3("Key(", name.as_str(), ")"),
        Event::Hold => name,
    }
}

/// How several texts are shown in a message.
pub open spec fn texts_shown(s: Seq<Seq<char>>) -> Seq<char>
    decreases s.len(),
{
    if s.len() == 0 {
        Seq::empty()
    } else if s.len() == 1 {
        s[0]
    } else {
        texts_shown(s.drop_last()) + ", "@ + s.last()
    }
}

fn show_texts(v: &Vec<String>) -> (r: String)
    ensures
        r@ == texts_shown(views(v@)),
{
    let ghost all = views(v@);
    if v.len() == 0 {
        return String::new();
    }
    let mut r: String = v[0].clone();
    let mut i: usize = 1;
    proof {
        assert(all.take(1).len() == 1);
        assert(all.take(1)[0] == all[0]);
    }
    while i < v.len()
        invariant
            1 <= i <= v@.len(),
            all == views(v@),
            r@ == texts_shown(all.take(i as int)),
        decreases v@.len() - i,
    {
        r = joined3(r.as_str(), ", ", v[i].as_str());
        i = i + 1;
        proof {
            assert(all.take(i as int).drop_last() =~= all.take(i - 1));
            assert(all.take(i as int).last() == all[i - 1]);
        }
    }
    assert(all.take(i as int) =~= all);
    r
}

/// How a combo is shown in a message.
pub open spec fn combo_shown(c: ComboView) -> Seq<char> {
    event_shown(c.0) + "+["@ + texts_shown(c.1.map_values(|e: Event| event_shown(e))) + "]"@
}

fn show_combo(c: &Combo) -> (r: String)
    ensures
        r@ == combo_shown(c@),
{
    let ghost want = c.held@.map_values(|e: Event| event_shown(e));
    let mut held: Vec<String> = Vec::new();
    let mut i: usize = 0;
    while i < c.held.len()
        invariant
            i <= c.held@.len(),
            held@.len() == i,
            forall|j: int| 0 <= j < i ==> (#[trigger] held@[j])@ == event_shown(c.held@[j]),
        decreases c.held@.len() - i,
    {
        held.push(show_event(&c.held[i]));
        i = i + 1;
    }
    assert(views(held@) =~= want);
    joined(
        joined3(show_event(&c.trigger).as_str(), "+[", show_texts(&held).as_str()).as_str(),
        "]",
    )
}

/// The warning that a module takes bindings away from another, whose name is
/// given in quotes.
pub open spec fn takes_from(quoted_name: Seq<char>, combos: Seq<ComboView>) -> Seq<char> {
    "overrides "@ + decimal(combos.len()) + " binding(s) from config "@ + quoted_name + ": "@
        + texts_shown(combos.map_values(|c: ComboView| combo_shown(c)))
        + " — both configs bind the same button, only this one takes effect"@
}

/// The warning that a module takes bindings away from another.
pub open spec fn takes_away(name: Seq<char>, combos: Seq<ComboView>) -> Seq<char> {
    takes_from(quoted(name), combos)
}

/// The warning that a module takes bindings away from another, whose name is
/// given in quotes.
pub fn takes_away_message(quoted_name: &str, combos: &Vec<Combo>) -> (r: String)
    ensures
        r@ == takes_from(quoted_name@, views(combos@)),
{
    let mut shown: Vec<String> = Vec::new();
    let mut i: usize = 0;
    while i < combos.len()
        invariant
            i <= combos@.len(),
            shown@.len() == i,
            forall|j: int| 0 <= j < i ==> (#[trigger] shown@[j])@ == combo_shown(combos@[j]@),
        decreases combos@.len() - i,
    {
        shown.push(show_combo(&combos[i]));
        i = i + 1;
    }
    assert(views(shown@) =~= views(combos@).map_values(|c: ComboView| combo_shown(c)));
    let count: String = number_text(combos.len() as u64);
    let head: String = joined3("overrides ", count.as_str(), " binding(s) from config ");
    let named: String = joined3(head.as_str(), quoted_name, ": ");
    joined3(
        named.as_str(),
        show_texts(&shown).as_str(),
        " — both configs bind the same button, only this one takes effect",
    )
}

// ── Modules ──────────────────────────────────────────────────────────────────

/// All plain modules, lowest rank first.
pub open spec fn plain_modules(entries: Seq<EntryView>) -> Seq<Layer>
    decreases entries.len(),
{
    if entries.len() == 0 {
        Seq::empty()
    } else {
        let before = plain_modules(entries.drop_last());
        match entries.last().config {
            Some(c) => if is_plain(c) {
                ranked_in(before, (entries.last().from_user, c))
            } else {
                before
            },
            None => before,
        }
    }
}

/// Whether a later module taking bindings from an earlier one is worth a
/// warning: both can be active at once, it is not the user's file changing a
/// shipped one, and they are not members of one group.
pub open spec fn worth_warning(later: Layer, earlier: Layer) -> bool {
    &&& overlap(
        text_in(later.1.module.requires_compositor),
        text_in(earlier.1.module.requires_compositor),
    )
    &&& !(later.0 && !earlier.0)
    &&& !(later.1.module.exclusive_group is Some && text_in(later.1.module.exclusive_group)
        == text_in(earlier.1.module.exclusive_group))
    &&& shared_combos(later.1.bindings, earlier.1.bindings).len() > 0
}

/// The warnings about the module `later` and the modules `before` it.
pub open spec fn module_warnings(later: Layer, before: Seq<Layer>) -> Seq<Seq<char>>
    decreases before.len(),
{
    if before.len() == 0 {
        Seq::empty()
    } else {
        let rest = module_warnings(later, before.drop_last());
        let earlier = before.last();
        if worth_warning(later, earlier) {
            rest.push(
                takes_away(
                    earlier.1.name,
                    shared_combos(later.1.bindings, earlier.1.bindings),
                ),
            )
        } else {
            rest
        }
    }
}

/// Entries with warnings at the one of a name.
pub open spec fn with_warnings(
    entries: Seq<EntryView>,
    name: Seq<char>,
    warnings: Seq<Seq<char>>,
) -> Seq<EntryView> {
    let i = place_of(entries, name);
    if i < entries.len() {
        entries.update(
            i,
            EntryView {
                errors: entries[i].errors + warnings.map_values(
                    |m: Seq<char>| ("warning"@, m),
                ),
                ..entries[i]
            },
        )
    } else {
        entries
    }
}

/// Entries with the warnings about the first `n` of the modules `s`.
pub open spec fn with_module_warnings(entries: Seq<EntryView>, s: Seq<Layer>, n: int) -> Seq<
    EntryView,
>
    decreases n,
{
    if n <= 0 {
        entries
    } else {
        with_warnings(
            with_module_warnings(entries, s, n - 1),
            s[n - 1].1.name,
            module_warnings(s[n - 1], s.take(n - 1)),
        )
    }
}

fn module_warning_list(
    entries: &Vec<ConfigEntry>,
    order: &Vec<usize>,
    n: usize,
) -> (r: Vec<String>)
    requires
        readable_at(entries@, order@),
        n < order@.len(),
    ensures
        ({
            let s = layers_at(entries@, order@, true);
            views(r@) == module_warnings(s[n as int], s.take(n as int))
        }),
{
    let ghost s = layers_at(entries@, order@, true);
    let ghost later = s[n as int];
    assert(order@[n as int] < entries@.len());
    let module: &Config = config_at(entries, order[n]);
    let own: bool = entries[order[n]].from_user;
    let mut r: Vec<String> = Vec::new();
    let mut i: usize = 0;
    assert(s.take(n as int).take(0) =~= Seq::<Layer>::empty());
    assert(views(r@) =~= Seq::<Seq<char>>::empty());
    while i < n
        invariant
            i <= n < order@.len(),
            readable_at(entries@, order@),
            s == layers_at(entries@, order@, true),
            later == s[n as int],
            later == (own, module@),
            views(r@) == module_warnings(later, s.take(i as int)),
        decreases n - i,
    {
        assert(order@[i as int] < entries@.len());
        let earlier: &Config = config_at(entries, order[i]);
        let ghost e = s[i as int];
        assert(e == (entries@[order@[i as int] as int].from_user, earlier@));
        let ghost before = views(r@);
        let exempt: bool = (own && !entries[order[i]].from_user) || (
        module.module.exclusive_group.is_some() && same_option(
            &module.module.exclusive_group,
            &earlier.module.exclusive_group,
        ));
        if gates_overlap(
            &module.module.requires_compositor,
            &earlier.module.requires_compositor,
        ) && !exempt {
            let both: Vec<Combo> = shared(&module.bindings, &earlier.bindings);
            if both.len() > 0 {
                r.push(
                    takes_away_message(quoted_text(earlier.name.as_str()).as_str(), &both),
                );
                assert(views(r@) =~= before.push(
                    takes_away(e.1.name, shared_combos(later.1.bindings, e.1.bindings)),
                ));
            }
        }
        i = i + 1;
        proof {
            assert(s.take(i as int).drop_last() =~= s.take(i - 1));
            assert(s.take(i as int).last() == e);
        }
    }
    r
}

fn add_warnings(entries: &mut Vec<ConfigEntry>, name: &str, warnings: &Vec<String>)
    ensures
        views(final(entries)@) == with_warnings(views(old(entries)@), name@, views(warnings@)),
        final(entries)@.len() == old(entries)@.len(),
        forall|j: int|
            #![trigger final(entries)@[j]]
            0 <= j < old(entries)@.len() ==> final(entries)@[j] == (ConfigEntry {
                errors: final(entries)@[j].errors,
                ..old(entries)@[j]
            }),
{
    let ghost was = entries@;
    match find_entry(entries, name) {
        None => {},
        Some(at) => {
            let mut i: usize = 0;
            let ghost base = views(was[at as int].errors@);
            assert(views(warnings@).take(0) =~= Seq::<Seq<char>>::empty());
            assert(base + views(warnings@).take(0).map_values(|m: Seq<char>| ("warning"@, m))
                =~= base);
            while i < warnings.len()
                invariant
                    i <= warnings@.len(),
                    at < was.len() == entries@.len(),
                    views(entries@[at as int].errors@) == base + views(warnings@).take(
                        i as int,
                    ).map_values(|m: Seq<char>| ("warning"@, m)),
                    entries@[at as int] == (ConfigEntry {
                        errors: entries@[at as int].errors,
                        ..was[at as int]
                    }),
                    forall|j: int|
                        0 <= j < was.len() && j != at ==> #[trigger] entries@[j] == was[j],
                decreases warnings@.len() - i,
            {
                let ghost before = views(entries@[at as int].errors@);
                let ghost older = entries@[at as int].errors@;
                let e = ConfigError { severity: "warning", message: warnings[i].clone() };
                entries[at].errors.push(e);
                i = i + 1;
                proof {
                    assert(entries@[at as int].errors@ == older.push(e));
                    assert(views(entries@[at as int].errors@) =~= before.push(e@));
                    let w = views(warnings@);
                    assert(w.take(i as int).map_values(|m: Seq<char>| ("warning"@, m)) =~= w.take(
                        i - 1,
                    ).map_values(|m: Seq<char>| ("warning"@, m)).push(e@));
                    assert(before.push(e@) =~= base + w.take(i as int).map_values(
                        |m: Seq<char>| ("warning"@, m),
                    ));
                }
            }
            assert(views(warnings@).take(i as int) =~= views(warnings@));
            assert(views(entries@) =~= with_warnings(views(was), name@, views(warnings@)));
        },
    }
}

/// Adding messages does not touch what the layers are.
proof fn lemma_layers_at_same(
    a: Seq<ConfigEntry>,
    b: Seq<ConfigEntry>,
    order: Seq<usize>,
    by_owner: bool,
)
    requires
        a.len() == b.len(),
        readable_at(a, order),
        forall|j: int|
            #![trigger b[j]]
            0 <= j < a.len() ==> b[j] == (ConfigEntry { errors: b[j].errors, ..a[j] }),
    ensures
        readable_at(b, order),
        layers_at(a, order, by_owner) == layers_at(b, order, by_owner),
{
    assert forall|i: int| #![trigger order[i]] 0 <= i < order.len() implies order[i] < b.len()
        && b[order[i] as int].config is Some by {
        assert(b[order[i] as int].config == a[order[i] as int].config);
    }
    assert forall|i: int| 0 <= i < order.len() implies #[trigger] layers_at(a, order, by_owner)[i]
        == layers_at(b, order, by_owner)[i] by {
        assert(order[i] < a.len());
        assert(b[order[i] as int].config == a[order[i] as int].config);
    }
    assert(layers_at(a, order, by_owner) =~= layers_at(b, order, by_owner));
}

/// Warn about every plain module that takes a binding away from another. The
/// warning is put on the module whose binding is in effect.
pub fn report_binding_conflicts(entries: &mut Vec<ConfigEntry>)
    ensures
        views(final(entries)@) == with_module_warnings(
            views(old(entries)@),
            plain_modules(views(old(entries)@)),
            plain_modules(views(old(entries)@)).len() as int,
        ),
{
    let ghost all = views(entries@);
    let ghost was = entries@;
    let mut order: Vec<usize> = Vec::new();
    let mut n: usize = 0;
    assert(layers_at(entries@, order@, true) =~= plain_modules(all.take(0)));
    while n < entries.len()
        invariant
            n <= entries@.len(),
            all == views(entries@),
            was == entries@,
            readable_at(entries@, order@),
            layers_at(entries@, order@, true) == plain_modules(all.take(n as int)),
        decreases entries@.len() - n,
    {
        proof {
            assert(all.take(n + 1).drop_last() =~= all.take(n as int));
            assert(all.take(n + 1).last() == entries@[n as int]@);
        }
        let plain: bool = match &entries[n].config {
            Some(c) => is_plain_module(c),
            None => false,
        };
        if plain {
            rank_entry(entries, &mut order, n, true);
        }
        n = n + 1;
    }
    assert(all.take(n as int) =~= all);
    let ghost s = plain_modules(all);
    let mut i: usize = 0;
    while i < order.len()
        invariant
            i <= order@.len() == s.len(),
            readable_at(entries@, order@),
            layers_at(entries@, order@, true) == s,
            entries@.len() == was.len(),
            views(entries@) == with_module_warnings(all, s, i as int),
        decreases order@.len() - i,
    {
        let warnings: Vec<String> = module_warning_list(entries, &order, i);
        assert(order@[i as int] < entries@.len());
        let name: String = config_at(entries, order[i]).name.clone();
        assert(name@ == s[i as int].1.name);
        let ghost before = entries@;
        add_warnings(entries, name.as_str(), &warnings);
        proof {
            lemma_layers_at_same(before, entries@, order@, true);
        }
        i = i + 1;
    }
}

// ── Devices ──────────────────────────────────────────────────────────────────

/// All base configurations, by name.
pub open spec fn bases(entries: Seq<EntryView>) -> Seq<Layer>
    decreases entries.len(),
{
    if entries.len() == 0 {
        Seq::empty()
    } else {
        let before = bases(entries.drop_last());
        match entries.last().config {
            Some(c) => if c.device is Some {
                ranked_in(before, (false, c))
            } else {
                before
            },
            None => before,
        }
    }
}

/// The device names that a base configuration declares.
pub open spec fn declared_names(c: ConfigView) -> Seq<String> {
    match c.device {
        Some((_, names)) => names,
        None => Seq::empty(),
    }
}

/// Whether one of two device names holds the other, so that a device of the
/// longer name matches both.
pub open spec fn same_device(a: Seq<char>, b: Seq<char>) -> bool {
    occurs(a, b) || occurs(b, a)
}

/// The first of `names` that is also claimed by `others`; the length where
/// there is none.
pub open spec fn claimed_twice(names: Seq<String>, others: Seq<String>) -> int
    decreases names.len(),
{
    if names.len() == 0 {
        0
    } else if exists|j: int|
        0 <= j < others.len() && same_device(names[0]@, (#[trigger] others[j])@) {
        0
    } else {
        1 + claimed_twice(names.drop_first(), others)
    }
}

/// The warning that a device is claimed by another base configuration too.
pub open spec fn claims_too(device: Seq<char>, name: Seq<char>) -> Seq<char> {
    "declares device "@ + quoted(device) + ", which config "@ + quoted(name)
        + " also claims — both match the same controller and only one of them drives it. Delete or rename whichever is the leftover."@
}

/// The warning that a device is claimed by another base configuration too, both
/// given in quotes.
pub fn claims_too_message(device: &str, name: &str) -> (r: String)
    ensures
        r@ == "declares device "@ + device@ + ", which config "@ + name@
            + " also claims — both match the same controller and only one of them drives it. Delete or rename whichever is the leftover."@,
{
    let head: String = joined3("declares device ", device, ", which config ");
    joined3(
        head.as_str(),
        name,
        " also claims — both match the same controller and only one of them drives it. Delete or rename whichever is the leftover.",
    )
}

/// The warnings about the base configuration `later` and those `before` it.
pub open spec fn base_warnings(later: ConfigView, before: Seq<Layer>) -> Seq<Seq<char>>
    decreases before.len(),
{
    if before.len() == 0 {
        Seq::empty()
    } else {
        let rest = base_warnings(later, before.drop_last());
        let earlier = before.last().1;
        let names = declared_names(later);
        let k = claimed_twice(names, declared_names(earlier));
        if overlap(
            text_in(later.module.requires_compositor),
            text_in(earlier.module.requires_compositor),
        ) && k < names.len() {
            rest.push(claims_too(names[k]@, earlier.name))
        } else {
            rest
        }
    }
}

/// Entries with the warnings about the first `n` of the base configurations
/// `s`.
pub open spec fn with_base_warnings(entries: Seq<EntryView>, s: Seq<Layer>, n: int) -> Seq<
    EntryView,
>
    decreases n,
{
    if n <= 0 {
        entries
    } else {
        with_warnings(
            with_base_warnings(entries, s, n - 1),
            s[n - 1].1.name,
            base_warnings(s[n - 1].1, s.take(n - 1)),
        )
    }
}

fn is_same_device(a: &str, b: &str) -> (r: bool)
    ensures
        r == same_device(a@, b@),
{
    contains_text(a, b) || contains_text(b, a)
}

fn find_claimed_twice(names: &Vec<String>, others: &Vec<String>) -> (r: Option<usize>)
    ensures
        match r {
            Some(k) => k == claimed_twice(names@, others@) && k < names@.len(),
            None => claimed_twice(names@, others@) == names@.len(),
        },
{
    let mut k: usize = 0;
    assert(names@.skip(0) =~= names@);
    while k < names.len()
        invariant
            k <= names@.len(),
            claimed_twice(names@, others@) == k + claimed_twice(names@.skip(k as int), others@),
        decreases names@.len() - k,
    {
        let mut j: usize = 0;
        while j < others.len()
            invariant
                j <= others@.len(),
                k < names@.len(),
                claimed_twice(names@, others@) == k + claimed_twice(names@.skip(k as int), others@),
                forall|i: int|
                    0 <= i < j ==> !same_device(names@[k as int]@, (#[trigger] others@[i])@),
            decreases others@.len() - j,
        {
            if is_same_device(names[k].as_str(), others[j].as_str()) {
                assert(names@.skip(k as int)[0] == names@[k as int]);
                return Some(k);
            }
            j = j + 1;
        }
        proof {
            assert(names@.skip(k as int)[0] == names@[k as int]);
            assert(names@.skip(k as int).drop_first() =~= names@.skip(k + 1));
        }
        k = k + 1;
    }
    None
}

/// Whether the entries at `order` are base configurations.
pub open spec fn devices_at(entries: Seq<ConfigEntry>, order: Seq<usize>) -> bool {
    forall|i: int|
        #![trigger order[i]]
        0 <= i < order.len() ==> entries[order[i] as int].config->0.device is Some
}

fn device_names(c: &Config) -> (r: &Vec<String>)
    requires
        c.device is Some,
    ensures
        r@ == declared_names(c@),
{
    &c.device.as_ref().unwrap().names
}

fn base_warning_list(entries: &Vec<ConfigEntry>, order: &Vec<usize>, n: usize) -> (r: Vec<String>)
    requires
        readable_at(entries@, order@),
        devices_at(entries@, order@),
        n < order@.len(),
    ensures
        ({
            let s = layers_at(entries@, order@, false);
            views(r@) == base_warnings(s[n as int].1, s.take(n as int))
        }),
{
    let ghost s = layers_at(entries@, order@, false);
    let ghost later = s[n as int].1;
    assert(order@[n as int] < entries@.len());
    let base: &Config = config_at(entries, order[n]);
    let mut r: Vec<String> = Vec::new();
    let mut i: usize = 0;
    assert(s.take(0) =~= Seq::<Layer>::empty());
    assert(views(r@) =~= Seq::<Seq<char>>::empty());
    while i < n
        invariant
            i <= n < order@.len(),
            readable_at(entries@, order@),
            devices_at(entries@, order@),
            s == layers_at(entries@, order@, false),
            later == base@,
            base.device is Some,
            views(r@) == base_warnings(later, s.take(i as int)),
        decreases n - i,
    {
        assert(order@[i as int] < entries@.len());
        let earlier: &Config = config_at(entries, order[i]);
        let ghost before = views(r@);
        if gates_overlap(&base.module.requires_compositor, &earlier.module.requires_compositor) {
            let names: &Vec<String> = device_names(base);
            if let Some(k) = find_claimed_twice(names, device_names(earlier)) {
                r.push(
                    claims_too_message(
                        quoted_text(names[k].as_str()).as_str(),
                        quoted_text(earlier.name.as_str()).as_str(),
                    ),
                );
                assert(views(r@) =~= before.push(claims_too(names@[k as int]@, earlier@.name)));
            }
        }
        i = i + 1;
        proof {
            assert(s.take(i as int).drop_last() =~= s.take(i - 1));
            assert(s.take(i as int).last() == (false, earlier@));
        }
    }
    r
}

/// Warn where two base configurations can be claimed by the same controller.
pub fn report_device_conflicts(entries: &mut Vec<ConfigEntry>)
    ensures
        views(final(entries)@) == with_base_warnings(
            views(old(entries)@),
            bases(views(old(entries)@)),
            bases(views(old(entries)@)).len() as int,
        ),
{
    let ghost all = views(entries@);
    let ghost was = entries@;
    let mut order: Vec<usize> = Vec::new();
    let mut n: usize = 0;
    assert(layers_at(entries@, order@, false) =~= bases(all.take(0)));
    while n < entries.len()
        invariant
            n <= entries@.len(),
            all == views(entries@),
            was == entries@,
            readable_at(entries@, order@),
            layers_at(entries@, order@, false) == bases(all.take(n as int)),
        decreases entries@.len() - n,
    {
        proof {
            assert(all.take(n + 1).drop_last() =~= all.take(n as int));
            assert(all.take(n + 1).last() == entries@[n as int]@);
        }
        let base: bool = match &entries[n].config {
            Some(c) => c.device.is_some(),
            None => false,
        };
        if base {
            rank_entry(entries, &mut order, n, false);
        }
        n = n + 1;
    }
    assert(all.take(n as int) =~= all);
    let ghost s = bases(all);
    proof {
        lemma_bases_have_devices(all);
        assert forall|i: int| #![trigger order@[i]] 0 <= i < order@.len() implies entries@[order@[
        i] as int].config->0.device is Some by {
            assert(s[i].1.device is Some);
            assert(s[i] == layers_at(entries@, order@, false)[i]);
        }
    }
    let mut i: usize = 0;
    while i < order.len()
        invariant
            i <= order@.len() == s.len(),
            readable_at(entries@, order@),
            devices_at(entries@, order@),
            layers_at(entries@, order@, false) == s,
            entries@.len() == was.len(),
            views(entries@) == with_base_warnings(all, s, i as int),
        decreases order@.len() - i,
    {
        let warnings: Vec<String> = base_warning_list(entries, &order, i);
        assert(order@[i as int] < entries@.len());
        let name: String = config_at(entries, order[i]).name.clone();
        assert(name@ == s[i as int].1.name);
        let ghost before = entries@;
        add_warnings(entries, name.as_str(), &warnings);
        proof {
            lemma_layers_at_same(before, entries@, order@, false);
            assert forall|k: int| #![trigger order@[k]] 0 <= k < order@.len() implies entries@[
            order@[k] as int].config->0.device is Some by {
                assert(order@[k] < entries@.len());
                assert(entries@[order@[k] as int].config == before[order@[k] as int].config);
            }
        }
        i = i + 1;
    }
}

proof fn lemma_ranked_in_devices(s: Seq<Layer>, m: Layer)
    requires
        m.1.device is Some,
        forall|i: int| 0 <= i < s.len() ==> (#[trigger] s[i]).1.device is Some,
    ensures
        forall|i: int|
            0 <= i < ranked_in(s, m).len() ==> (#[trigger] ranked_in(s, m)[i]).1.device is Some,
    decreases s.len(),
{
    let r = ranked_in(s, m);
    if s.len() > 0 && crate::layers::outranked(m, s.last()) {
        let init = s.drop_last();
        lemma_ranked_in_devices(init, m);
        let q = ranked_in(init, m);
        assert forall|i: int| 0 <= i < r.len() implies (#[trigger] r[i]).1.device is Some by {
            if i < q.len() {
                assert(r[i] == q[i]);
            }
        }
    }
}

proof fn lemma_bases_have_devices(entries: Seq<EntryView>)
    ensures
        forall|i: int|
            0 <= i < bases(entries).len() ==> (#[trigger] bases(entries)[i]).1.device is Some,
    decreases entries.len(),
{
    if entries.len() > 0 {
        lemma_bases_have_devices(entries.drop_last());
        if let Some(c) = entries.last().config {
            if c.device is Some {
                lemma_ranked_in_devices(bases(entries.drop_last()), (false, c));
            }
        }
    }
}

// ── What is warned of ────────────────────────────────────────────────────────

/// Two modules are warned of where both can be active at once and both bind a
/// combo: not where they name different compositors, nor where the user's file
/// changes a shipped one, nor where they are members of one group.
pub proof fn law_clashing_modules_are_warned_of(later: Layer, earlier: Layer, c: ComboView)
    requires
        exists|s: Seq<ComboView>|
            lists_combos(s, bound(later.1.bindings).intersect(bound(earlier.1.bindings))),
    ensures
        ({
            let a = later.1.module;
            let b = earlier.1.module;
            let apart = a.requires_compositor is Some && b.requires_compositor is Some
                && a.requires_compositor->0@ != b.requires_compositor->0@;
            let own = later.0 && !earlier.0;
            let grouped = a.exclusive_group is Some && b.exclusive_group is Some
                && a.exclusive_group->0@ == b.exclusive_group->0@;
            let x = later.1.bindings;
            let y = earlier.1.bindings;
            let both = (x.remap.contains_key(c) || x.commands.contains_key(c)
                || x.movements.contains_key(c)) && (y.remap.contains_key(c)
                || y.commands.contains_key(c) || y.movements.contains_key(c));
            &&& both ==> (worth_warning(later, earlier) <==> !apart && !own && !grouped)
            &&& both <==> shared_combos(x, y).contains(c)
            &&& apart || own || grouped ==> !worth_warning(later, earlier)
        }),
{
    let x = later.1.bindings;
    let y = earlier.1.bindings;
    let s = shared_combos(x, y);
    assert(lists_combos(s, bound(x).intersect(bound(y))));
    assert(s.contains(c) <==> bound(x).intersect(bound(y)).contains(c));
}

/// Nothing is warned of where no combo is bound by both modules.
pub proof fn law_modules_apart_are_not_warned_of(later: Layer, earlier: Layer)
    requires
        forall|c: ComboView|
            !(#[trigger] bound(later.1.bindings).contains(c) && bound(earlier.1.bindings).contains(
                c,
            )),
    ensures
        !worth_warning(later, earlier),
{
    let x = later.1.bindings;
    let y = earlier.1.bindings;
    let none = bound(x).intersect(bound(y));
    let s = shared_combos(x, y);
    assert forall|c: ComboView| !#[trigger] none.contains(c) by {}
    assert forall|c: ComboView| #[trigger] Seq::<ComboView>::empty().contains(c)
        <==> none.contains(c) by {}
    assert(lists_combos(Seq::<ComboView>::empty(), none));
    assert(lists_combos(s, none));
    if s.len() > 0 {
        assert(s.contains(s[0]));
    }
}

/// Every earlier module that clashes with a later one brings one warning, in
/// their order, and no other module does.
pub proof fn law_each_clash_brings_one_warning(later: Layer, before: Seq<Layer>, next: Layer)
    ensures
        module_warnings(later, Seq::empty()) == Seq::<Seq<char>>::empty(),
        worth_warning(later, next) ==> module_warnings(later, before.push(next))
            == module_warnings(later, before).push(
            takes_away(next.1.name, shared_combos(later.1.bindings, next.1.bindings)),
        ),
        !worth_warning(later, next) ==> module_warnings(later, before.push(next))
            == module_warnings(later, before),
{
    assert(before.push(next).drop_last() =~= before);
    assert(before.push(next).last() == next);
}

/// A warning says how many bindings are taken from which configuration, and
/// which they are.
pub proof fn law_warnings_name_what_is_taken(name: Seq<char>, a: ComboView, b: ComboView)
    ensures
        takes_away(name, seq![a]) == "overrides "@ + decimal(1) + " binding(s) from config "@
            + quoted(name) + ": "@ + combo_shown(a)
            + " — both configs bind the same button, only this one takes effect"@,
        takes_away(name, seq![a, b]) == "overrides "@ + decimal(2) + " binding(s) from config "@
            + quoted(name) + ": "@ + (combo_shown(a) + ", "@ + combo_shown(b))
            + " — both configs bind the same button, only this one takes effect"@,
{
    let one = seq![a].map_values(|c: ComboView| combo_shown(c));
    let two = seq![a, b].map_values(|c: ComboView| combo_shown(c));
    assert(one =~= seq![combo_shown(a)]);
    assert(two.drop_last() =~= seq![combo_shown(a)]);
    assert(two.last() == combo_shown(b));
    assert(texts_shown(two.drop_last()) == combo_shown(a));
}

/// A base configuration is warned of where a device of one of its names is
/// also claimed by an earlier one: where one of the two names holds the other.
/// The first such name is told.
pub proof fn law_first_double_claim_is_told(names: Seq<String>, others: Seq<String>, i: int)
    requires
        0 <= i <= names.len(),
        i < names.len() ==> exists|j: int|
            0 <= j < others.len() && (occurs(names[i]@, (#[trigger] others[j])@) || occurs(
                others[j]@,
                names[i]@,
            )),
        forall|k: int, j: int|
            #![trigger names[k], others[j]]
            0 <= k < i && 0 <= j < others.len() ==> !occurs(names[k]@, others[j]@) && !occurs(
                others[j]@,
                names[k]@,
            ),
    ensures
        claimed_twice(names, others) == i,
    decreases names.len(),
{
    if names.len() > 0 {
        if i == 0 {
            let j = choose|j: int|
                0 <= j < others.len() && (occurs(names[i]@, (#[trigger] others[j])@) || occurs(
                    others[j]@,
                    names[i]@,
                ));
            assert(same_device(names[0]@, others[j]@));
        } else {
            let rest = names.drop_first();
            assert forall|j: int| 0 <= j < others.len() implies !same_device(
                names[0]@,
                (#[trigger] others[j])@,
            ) by {}
            if i < names.len() {
                assert(rest[i - 1] == names[i]);
            }
            assert forall|k: int, j: int|
                #![trigger rest[k], others[j]]
                0 <= k < i - 1 && 0 <= j < others.len() implies !occurs(rest[k]@, others[j]@)
                && !occurs(others[j]@, rest[k]@) by {
                assert(rest[k] == names[k + 1]);
            }
            law_first_double_claim_is_told(rest, others, i - 1);
        }
    }
}

/// Warnings are put behind what an entry has, as warnings, and touch nothing
/// else.
pub proof fn law_warnings_go_to_their_entry(
    entries: Seq<EntryView>,
    name: Seq<char>,
    warnings: Seq<Seq<char>>,
    i: int,
)
    requires
        0 <= i < entries.len(),
    ensures
        ({
            let r = with_warnings(entries, name, warnings);
            &&& r.len() == entries.len()
            &&& i != place_of(entries, name) ==> r[i] == entries[i]
            &&& i == place_of(entries, name) ==> {
                &&& r[i].errors.len() == entries[i].errors.len() + warnings.len()
                &&& forall|k: int|
                    0 <= k < entries[i].errors.len() ==> #[trigger] r[i].errors[k]
                        == entries[i].errors[k]
                &&& forall|k: int|
                    0 <= k < warnings.len() ==> r[i].errors[entries[i].errors.len() + k] == (
                        "warning"@,
                        #[trigger] warnings[k],
                    )
                &&& r[i].name == entries[i].name && r[i].config == entries[i].config
                    && r[i].enabled == entries[i].enabled && r[i].from_user == entries[i].from_user
            }
        }),
{
    crate::layers::lemma_place_of(entries, name);
}

} // verus!
