//! Exclusive groups: sets of modules of which one is active at a time, and how
//! recorded preferences decide what is enabled.

use crate::layers::{could_run, runnable, ConfigEntry, EntryView};
use crate::order::views;
use crate::preferences::{Preferences, PreferencesView};
use crate::text::{same_text, text_before, text_in, text_is_before};
use vstd::prelude::*;

verus! {

/// Whether an entry is a member of a group.
pub open spec fn in_group(e: EntryView, group: Seq<char>) -> bool {
    match e.config {
        Some(c) => text_in(c.module.exclusive_group) == Some(group),
        None => false,
    }
}

fn is_in_group(entry: &ConfigEntry, group: &str) -> (r: bool)
    ensures
        r == in_group(entry@, group@),
{
    match &entry.config {
        Some(c) => match &c.module.exclusive_group {
            Some(g) => same_text(g.as_str(), group),
            None => false,
        },
        None => false,
    }
}

/// The names of a group's members.
pub open spec fn members(entries: Seq<EntryView>, group: Seq<char>) -> Seq<Seq<char>>
    decreases entries.len(),
{
    if entries.len() == 0 {
        Seq::empty()
    } else if in_group(entries.last(), group) {
        members(entries.drop_last(), group).push(entries.last().name)
    } else {
        members(entries.drop_last(), group)
    }
}

/// The names of a group's members, enabled or not.
pub fn group_members(entries: &Vec<ConfigEntry>, group: &str) -> (r: Vec<String>)
    ensures
        views(r@) == members(views(entries@), group@),
{
    let ghost all = views(entries@);
    let mut r: Vec<String> = Vec::new();
    let mut i: usize = 0;
    assert(views(r@) =~= members(all.take(0), group@));
    while i < entries.len()
        invariant
            i <= entries@.len(),
            all == views(entries@),
            views(r@) == members(all.take(i as int), group@),
        decreases entries@.len() - i,
    {
        let ghost before = views(r@);
        if is_in_group(&entries[i], group) {
            r.push(entries[i].name.clone());
            assert(views(r@) =~= before.push(all[i as int].name));
        }
        i = i + 1;
        proof {
            assert(all.take(i as int).drop_last() =~= all.take(i - 1));
            assert(all.take(i as int).last() == all[i - 1]);
        }
    }
    assert(all.take(i as int) =~= all);
    r
}

/// Whether an entry can be the active member of a group.
pub open spec fn can_win(e: EntryView, group: Seq<char>, compositor: Option<Seq<char>>) -> bool {
    in_group(e, group) && could_run(e, compositor)
}

/// Whether the member of a name can be the active one of a group.
pub open spec fn can_win_as(
    entries: Seq<EntryView>,
    group: Seq<char>,
    compositor: Option<Seq<char>>,
    name: Seq<char>,
) -> bool {
    exists|i: int|
        0 <= i < entries.len() && can_win(#[trigger] entries[i], group, compositor)
            && entries[i].name == name
}

/// The first, by name, of the members that can be active.
pub open spec fn first_member(
    entries: Seq<EntryView>,
    group: Seq<char>,
    compositor: Option<Seq<char>>,
) -> Option<Seq<char>>
    decreases entries.len(),
{
    if entries.len() == 0 {
        None
    } else {
        let before = first_member(entries.drop_last(), group, compositor);
        let e = entries.last();
        if can_win(e, group, compositor) && (before is None || text_before(e.name, before->0)) {
            Some(e.name)
        } else {
            before
        }
    }
}

/// The member that a group comes back to: the recorded one where it can be
/// active, else the first that can.
pub open spec fn remembered(
    entries: Seq<EntryView>,
    choices: Map<Seq<char>, Seq<char>>,
    group: Seq<char>,
    compositor: Option<Seq<char>>,
) -> Option<Seq<char>> {
    if choices.contains_key(group) && can_win_as(entries, group, compositor, choices[group]) {
        Some(choices[group])
    } else {
        first_member(entries, group, compositor)
    }
}

/// The active member of a group: none while the group is switched off.
pub open spec fn active_member(
    entries: Seq<EntryView>,
    preferences: PreferencesView,
    group: Seq<char>,
    compositor: Option<Seq<char>>,
) -> Option<Seq<char>> {
    if preferences.groups_off.contains(group) {
        None
    } else {
        remembered(entries, preferences.choices, group, compositor)
    }
}

fn member_can_win(
    entries: &Vec<ConfigEntry>,
    group: &str,
    compositor: &Option<String>,
    name: &str,
) -> (r: bool)
    ensures
        r == can_win_as(views(entries@), group@, text_in(*compositor), name@),
{
    let ghost all = views(entries@);
    let mut i: usize = 0;
    while i < entries.len()
        invariant
            i <= entries@.len(),
            all == views(entries@),
            forall|j: int|
                0 <= j < i ==> !(can_win(#[trigger] all[j], group@, text_in(*compositor))
                    && all[j].name == name@),
        decreases entries@.len() - i,
    {
        assert(all[i as int] == entries@[i as int]@);
        if is_in_group(&entries[i], group) && runnable(&entries[i], compositor) && same_text(
            entries[i].name.as_str(),
            name,
        ) {
            return true;
        }
        i = i + 1;
    }
    false
}

fn first_winner(entries: &Vec<ConfigEntry>, group: &str, compositor: &Option<String>) -> (r: Option<
    String,
>)
    ensures
        text_in(r) == first_member(views(entries@), group@, text_in(*compositor)),
{
    let ghost all = views(entries@);
    let mut r: Option<String> = None;
    let mut i: usize = 0;
    assert(all.take(0) =~= Seq::<EntryView>::empty());
    while i < entries.len()
        invariant
            i <= entries@.len(),
            all == views(entries@),
            text_in(r) == first_member(all.take(i as int), group@, text_in(*compositor)),
        decreases entries@.len() - i,
    {
        let better: bool = is_in_group(&entries[i], group) && runnable(&entries[i], compositor)
            && match &r {
            Some(n) => text_is_before(entries[i].name.as_str(), n.as_str()),
            None => true,
        };
        if better {
            r = Some(entries[i].name.clone());
        }
        i = i + 1;
        proof {
            assert(all.take(i as int).drop_last() =~= all.take(i - 1));
            assert(all.take(i as int).last() == entries@[i - 1]@);
        }
    }
    assert(all.take(i as int) =~= all);
    r
}

/// The member that a group comes back to.
pub fn remembered_member(
    entries: &Vec<ConfigEntry>,
    preferences: &Preferences,
    group: &str,
    compositor: &Option<String>,
) -> (r: Option<String>)
    ensures
        text_in(r) == remembered(
            views(entries@),
            preferences@.choices,
            group@,
            text_in(*compositor),
        ),
{
    if let Some(name) = preferences.group_choice(group) {
        if member_can_win(entries, group, compositor, name) {
            return Some(name.to_owned());
        }
    }
    first_winner(entries, group, compositor)
}

/// The active member of a group.
pub fn chosen_member(
    entries: &Vec<ConfigEntry>,
    preferences: &Preferences,
    group: &str,
    compositor: &Option<String>,
) -> (r: Option<String>)
    ensures
        text_in(r) == active_member(views(entries@), preferences@, group@, text_in(*compositor)),
{
    if preferences.is_group_disabled(group) {
        None
    } else {
        remembered_member(entries, preferences, group, compositor)
    }
}

/// Entries with one member of a group enabled and the others not; none of them
/// for no member.
pub open spec fn with_member(
    entries: Seq<EntryView>,
    group: Seq<char>,
    member: Option<Seq<char>>,
) -> Seq<EntryView> {
    Seq::new(
        entries.len(),
        |i: int|
            if in_group(entries[i], group) {
                EntryView { enabled: member == Some(entries[i].name), ..entries[i] }
            } else {
                entries[i]
            },
    )
}

/// Enable one member of a group and no other.
pub fn enable_member(entries: &mut Vec<ConfigEntry>, group: &str, member: &Option<String>)
    ensures
        views(final(entries)@) == with_member(views(old(entries)@), group@, text_in(*member)),
{
    let ghost want = with_member(views(entries@), group@, text_in(*member));
    let ghost was = views(entries@);
    let n: usize = entries.len();
    let mut i: usize = 0;
    while i < n
        invariant
            i <= n == entries@.len() == was.len(),
            want == with_member(was, group@, text_in(*member)),
            forall|j: int| 0 <= j < i ==> #[trigger] entries@[j]@ == want[j],
            forall|j: int| i <= j < n ==> #[trigger] entries@[j]@ == was[j],
        decreases n - i,
    {
        if is_in_group(&entries[i], group) {
            let on: bool = match member {
                Some(m) => same_text(m.as_str(), entries[i].name.as_str()),
                None => false,
            };
            let ghost before = entries@[i as int];
            entries[i].enabled = on;
            assert(entries@[i as int]@ == (EntryView { enabled: on, ..before@ }));
        }
        i = i + 1;
    }
    assert(views(entries@) =~= want);
}

// ── Applying preferences ─────────────────────────────────────────────────────

/// Whether preferences leave an entry enabled. In a group that is decided by
/// the group's active member alone; a file that could not be read is left as it
/// is.
pub open spec fn stays_enabled(
    entries: Seq<EntryView>,
    preferences: PreferencesView,
    compositor: Option<Seq<char>>,
    e: EntryView,
) -> bool {
    match e.config {
        Some(c) => match c.module.exclusive_group {
            Some(g) => active_member(entries, preferences, g@, compositor) == Some(e.name),
            None => e.enabled && !preferences.modules_off.contains(e.name),
        },
        None => e.enabled,
    }
}

/// Entries as preferences want them.
pub open spec fn preferred(
    entries: Seq<EntryView>,
    preferences: PreferencesView,
    compositor: Option<Seq<char>>,
) -> Seq<EntryView> {
    Seq::new(
        entries.len(),
        |i: int|
            EntryView {
                enabled: stays_enabled(entries, preferences, compositor, entries[i]),
                ..entries[i]
            },
    )
}

/// Stamp recorded preferences on entries.
pub fn apply_preferences(
    entries: &mut Vec<ConfigEntry>,
    preferences: &Preferences,
    compositor: &Option<String>,
)
    ensures
        views(final(entries)@) == preferred(
            views(old(entries)@),
            preferences@,
            text_in(*compositor),
        ),
{
    let ghost was = views(entries@);
    let ghost c = text_in(*compositor);
    let ghost want = preferred(was, preferences@, c);
    let n: usize = entries.len();
    let mut flags: Vec<bool> = Vec::new();
    let mut i: usize = 0;
    while i < n
        invariant
            i <= n == entries@.len(),
            was == views(entries@),
            c == text_in(*compositor),
            want == preferred(was, preferences@, c),
            flags@.len() == i,
            forall|j: int| 0 <= j < i ==> #[trigger] flags@[j] == want[j].enabled,
        decreases n - i,
    {
        assert(was[i as int] == entries@[i as int]@);
        let flag: bool = match &entries[i].config {
            Some(config) => match &config.module.exclusive_group {
                Some(g) => match chosen_member(entries, preferences, g.as_str(), compositor) {
                    Some(m) => same_text(m.as_str(), entries[i].name.as_str()),
                    None => false,
                },
                None => entries[i].enabled && !preferences.is_disabled(entries[i].name.as_str()),
            },
            None => entries[i].enabled,
        };
        flags.push(flag);
        i = i + 1;
    }
    let mut k: usize = 0;
    while k < n
        invariant
            k <= n == entries@.len() == was.len() == flags@.len(),
            want == preferred(was, preferences@, c),
            forall|j: int| 0 <= j < n ==> #[trigger] flags@[j] == want[j].enabled,
            forall|j: int| 0 <= j < k ==> #[trigger] entries@[j]@ == want[j],
            forall|j: int| k <= j < n ==> #[trigger] entries@[j]@ == was[j],
        decreases n - k,
    {
        let ghost before = entries@[k as int];
        let on: bool = flags[k];
        entries[k].enabled = on;
        assert(entries@[k as int]@ == (EntryView { enabled: on, ..before@ }));
        k = k + 1;
    }
    assert(views(entries@) =~= want);
}

// ── Laws ─────────────────────────────────────────────────────────────────────

/// The first member is one that can be active, no such member comes before it,
/// and there is one as soon as any member can be active.
pub proof fn lemma_first_member(
    entries: Seq<EntryView>,
    group: Seq<char>,
    compositor: Option<Seq<char>>,
)
    ensures
        match first_member(entries, group, compositor) {
            Some(n) => can_win_as(entries, group, compositor, n) && forall|i: int|
                0 <= i < entries.len() && can_win(#[trigger] entries[i], group, compositor)
                    ==> !text_before(entries[i].name, n),
            None => forall|i: int|
                0 <= i < entries.len() ==> !can_win(#[trigger] entries[i], group, compositor),
        },
    decreases entries.len(),
{
    if entries.len() > 0 {
        let init = entries.drop_last();
        let e = entries.last();
        lemma_first_member(init, group, compositor);
        let before = first_member(init, group, compositor);
        let now = first_member(entries, group, compositor);
        if let Some(n) = now {
            if can_win(e, group, compositor) && (before is None || text_before(e.name, before->0)) {
                assert(can_win(entries[entries.len() - 1], group, compositor));
                assert forall|i: int|
                    0 <= i < entries.len() && can_win(
                        #[trigger] entries[i],
                        group,
                        compositor,
                    ) implies !text_before(entries[i].name, n) by {
                    if i < init.len() {
                        assert(init[i] == entries[i]);
                        if text_before(entries[i].name, n) {
                            <String as crate::order::Ordered>::before_transitive(
                                entries[i].name,
                                n,
                                before->0,
                            );
                        }
                    } else {
                        <String as crate::order::Ordered>::before_irreflexive(n);
                    }
                }
            } else {
                let k = choose|k: int|
                    0 <= k < init.len() && can_win(#[trigger] init[k], group, compositor)
                        && init[k].name == n;
                assert(can_win(entries[k], group, compositor));
                assert forall|i: int|
                    0 <= i < entries.len() && can_win(
                        #[trigger] entries[i],
                        group,
                        compositor,
                    ) implies !text_before(entries[i].name, n) by {
                    if i < init.len() {
                        assert(init[i] == entries[i]);
                    }
                }
            }
        } else {
            assert forall|i: int| 0 <= i < entries.len() implies !can_win(
                #[trigger] entries[i],
                group,
                compositor,
            ) by {
                if i < init.len() {
                    assert(init[i] == entries[i]);
                }
            }
        }
    }
}

/// Whether names tell entries apart.
pub open spec fn distinct_names(entries: Seq<EntryView>) -> bool {
    forall|i: int, j: int|
        #![trigger entries[i], entries[j]]
        0 <= i < entries.len() && 0 <= j < entries.len() && entries[i].name == entries[j].name
            ==> i == j
}

/// Once preferences are applied, no two members of a group are enabled.
pub proof fn law_one_member_at_most(
    entries: Seq<EntryView>,
    preferences: PreferencesView,
    compositor: Option<Seq<char>>,
    group: Seq<char>,
    i: int,
    j: int,
)
    requires
        distinct_names(entries),
        0 <= i < entries.len(),
        0 <= j < entries.len(),
        in_group(entries[i], group),
        in_group(entries[j], group),
        preferred(entries, preferences, compositor)[i].enabled,
        preferred(entries, preferences, compositor)[j].enabled,
    ensures
        i == j,
{
}

/// Once preferences are applied, a group that is not switched off has an
/// enabled member as soon as one of its members can run, and that member can.
pub proof fn law_some_member_unless_off(
    entries: Seq<EntryView>,
    preferences: PreferencesView,
    compositor: Option<Seq<char>>,
    group: Seq<char>,
    k: int,
)
    requires
        distinct_names(entries),
        !preferences.groups_off.contains(group),
        0 <= k < entries.len(),
        can_win(entries[k], group, compositor),
    ensures
        exists|i: int|
            0 <= i < entries.len() && can_win(#[trigger] entries[i], group, compositor)
                && preferred(entries, preferences, compositor)[i].enabled,
{
    lemma_first_member(entries, group, compositor);
    let m = active_member(entries, preferences, group, compositor);
    assert(m is Some);
    let i = choose|i: int|
        0 <= i < entries.len() && can_win(#[trigger] entries[i], group, compositor)
            && entries[i].name == m->0;
    assert(can_win(entries[i], group, compositor));
    let g = entries[i].config->0.module.exclusive_group->0;
    assert(g@ == group);
    assert(preferred(entries, preferences, compositor)[i].enabled);
}

/// Once preferences are applied, no member of a group that is switched off is
/// enabled.
pub proof fn law_group_off_is_off(
    entries: Seq<EntryView>,
    preferences: PreferencesView,
    compositor: Option<Seq<char>>,
    group: Seq<char>,
    i: int,
)
    requires
        preferences.groups_off.contains(group),
        0 <= i < entries.len(),
        in_group(entries[i], group),
    ensures
        !preferred(entries, preferences, compositor)[i].enabled,
{
    let g = entries[i].config->0.module.exclusive_group->0;
    assert(g@ == group);
}

/// What preferences were applied before does not matter, nor which compositor
/// was known then: a start, which learns of the compositor later, and a reload
/// agree on what is enabled.
pub proof fn law_preferences_are_stable(
    entries: Seq<EntryView>,
    preferences: PreferencesView,
    earlier: Option<Seq<char>>,
    compositor: Option<Seq<char>>,
)
    ensures
        preferred(preferred(entries, preferences, earlier), preferences, compositor) == preferred(
            entries,
            preferences,
            compositor,
        ),
{
    let first = preferred(entries, preferences, earlier);
    let twice = preferred(first, preferences, compositor);
    let once = preferred(entries, preferences, compositor);
    assert forall|i: int| 0 <= i < entries.len() implies #[trigger] twice[i] == once[i] by {
        assert(first[i].config == entries[i].config);
        assert(first[i].name == entries[i].name);
        if let Some(c) = entries[i].config {
            if let Some(g) = c.module.exclusive_group {
                lemma_same_member(entries, first, g@, compositor);
            }
        }
    }
    assert(twice =~= once);
}

/// Which member is active does not depend on what is enabled.
pub proof fn lemma_same_member(
    a: Seq<EntryView>,
    b: Seq<EntryView>,
    group: Seq<char>,
    compositor: Option<Seq<char>>,
)
    requires
        a.len() == b.len(),
        forall|i: int|
            #![trigger a[i]]
            #![trigger b[i]]
            0 <= i < a.len() ==> a[i].name == b[i].name && a[i].config == b[i].config,
    ensures
        first_member(a, group, compositor) == first_member(b, group, compositor),
        forall|n: Seq<char>|
            can_win_as(a, group, compositor, n) == can_win_as(b, group, compositor, n),
    decreases a.len(),
{
    if a.len() > 0 {
        lemma_same_member(a.drop_last(), b.drop_last(), group, compositor);
        assert(a[a.len() - 1].name == b[b.len() - 1].name);
    }
    assert forall|n: Seq<char>|
        can_win_as(a, group, compositor, n) == can_win_as(b, group, compositor, n) by {
        if can_win_as(a, group, compositor, n) {
            let i = choose|i: int|
                0 <= i < a.len() && can_win(#[trigger] a[i], group, compositor) && a[i].name == n;
            assert(can_win(b[i], group, compositor));
        }
        if can_win_as(b, group, compositor, n) {
            let i = choose|i: int|
                0 <= i < b.len() && can_win(#[trigger] b[i], group, compositor) && b[i].name == n;
            assert(can_win(a[i], group, compositor));
        }
    }
}

/// A group that is not switched off has the recorded member, where that is a
/// member of it that was read and is not meant for another compositor than the
/// running one.
pub proof fn law_recorded_member_is_active(
    entries: Seq<EntryView>,
    preferences: PreferencesView,
    group: Seq<char>,
    compositor: Option<Seq<char>>,
    i: int,
)
    requires
        !preferences.groups_off.contains(group),
        preferences.choices.contains_key(group),
        0 <= i < entries.len(),
        preferences.choices[group] == entries[i].name,
        entries[i].config matches Some(c) && c.module.exclusive_group is Some
            && c.module.exclusive_group->0@ == group && (c.module.requires_compositor is None
            || compositor is None || c.module.requires_compositor->0@ == compositor->0),
    ensures
        active_member(entries, preferences, group, compositor) == Some(entries[i].name),
{
    assert(can_win(entries[i], group, compositor));
}

/// Without a record a group that is not switched off has the first of those
/// members, by name.
pub proof fn law_first_member_is_active(
    entries: Seq<EntryView>,
    preferences: PreferencesView,
    group: Seq<char>,
    compositor: Option<Seq<char>>,
    i: int,
)
    requires
        !preferences.groups_off.contains(group),
        !preferences.choices.contains_key(group),
        0 <= i < entries.len(),
        entries[i].config matches Some(c) && c.module.exclusive_group is Some
            && c.module.exclusive_group->0@ == group && (c.module.requires_compositor is None
            || compositor is None || c.module.requires_compositor->0@ == compositor->0),
        forall|j: int|
            0 <= j < entries.len() && (#[trigger] entries[j]).config is Some && text_in(
                entries[j].config->0.module.exclusive_group,
            ) == Some(group) ==> entries[j].name == entries[i].name || text_before(
                entries[i].name,
                entries[j].name,
            ),
    ensures
        active_member(entries, preferences, group, compositor) == Some(entries[i].name),
{
    lemma_first_member(entries, group, compositor);
    assert(can_win(entries[i], group, compositor));
    let n = first_member(entries, group, compositor)->0;
    let j = choose|j: int|
        0 <= j < entries.len() && can_win(#[trigger] entries[j], group, compositor)
            && entries[j].name == n;
    assert(entries[j].config is Some);
}

/// A file that is in no group stays enabled unless it is switched off by name;
/// nothing but that is changed of any file.
pub proof fn law_preferences_only_switch(
    entries: Seq<EntryView>,
    preferences: PreferencesView,
    compositor: Option<Seq<char>>,
    i: int,
)
    requires
        0 <= i < entries.len(),
    ensures
        ({
            let r = preferred(entries, preferences, compositor);
            &&& r.len() == entries.len()
            &&& r[i].name == entries[i].name && r[i].config == entries[i].config && r[i].from_user
                == entries[i].from_user && r[i].errors == entries[i].errors
            &&& (entries[i].config is Some && entries[i].config->0.module.exclusive_group is None)
                ==> r[i].enabled == (entries[i].enabled && !preferences.modules_off.contains(
                entries[i].name,
            ))
            &&& entries[i].config is None ==> r[i].enabled == entries[i].enabled
        }),
{
}

/// Making one member of a group the active one disables every other member and
/// leaves all other files alone.
pub proof fn law_one_member_is_enabled(
    entries: Seq<EntryView>,
    group: Seq<char>,
    member: Option<Seq<char>>,
    i: int,
)
    requires
        0 <= i < entries.len(),
    ensures
        ({
            let r = with_member(entries, group, member);
            let inside = entries[i].config is Some && text_in(
                entries[i].config->0.module.exclusive_group,
            ) == Some(group);
            &&& inside && member is Some ==> (r[i].enabled <==> member->0 == entries[i].name)
            &&& inside && member is None ==> !r[i].enabled
            &&& !inside ==> r[i] == entries[i]
            &&& r[i].name == entries[i].name && r[i].config == entries[i].config
        }),
{
}

} // verus!
