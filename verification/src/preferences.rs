//! Preferences: which modules and groups are switched off, and which member of
//! each exclusive group was picked. Only deviations from the default are kept.

use crate::config::TextTable;
use crate::keyed::KeyedList;
use crate::order::{lemma_sorts_members, sorted, sorts, views};
use crate::text::{copy_texts, ends_with, ends, joined, joined3, listed, lists, same_text};
use vstd::prelude::*;

verus! {

/// Groups that are switched off.
#[derive(Debug, PartialEq, Eq)]
pub struct GroupPreferences {
    pub disabled: Vec<String>,
}

/// Modules that are switched off.
#[derive(Debug, PartialEq, Eq)]
pub struct ModulePreferences {
    pub disabled: Vec<String>,
}

/// The recorded choices.
#[derive(Debug, PartialEq, Eq)]
pub struct Preferences {
    /// The picked member of each exclusive group. A group that is switched off
    /// keeps its entry: that is the member to come back to.
    pub exclusive_groups: TextTable,
    pub groups: GroupPreferences,
    pub modules: ModulePreferences,
}

/// The recorded choices, without their representation.
#[verifier::ext_equal]
pub struct PreferencesView {
    pub choices: Map<Seq<char>, Seq<char>>,
    pub groups_off: Seq<Seq<char>>,
    pub modules_off: Seq<Seq<char>>,
}

impl View for Preferences {
    type V = PreferencesView;

    open spec fn view(&self) -> PreferencesView {
        PreferencesView {
            choices: self.exclusive_groups@,
            groups_off: views(self.groups.disabled@),
            modules_off: views(self.modules.disabled@),
        }
    }
}

impl Default for Preferences {
    fn default() -> (r: Self)
        ensures
            r@ == no_preferences(),
    {
        let r = Preferences {
            exclusive_groups: KeyedList::new(),
            groups: GroupPreferences { disabled: Vec::new() },
            modules: ModulePreferences { disabled: Vec::new() },
        };
        assert(r@ =~= no_preferences());
        r
    }
}

impl Clone for Preferences {
    fn clone(&self) -> (r: Self)
        ensures
            r@ == self@,
    {
        Preferences {
            exclusive_groups: self.exclusive_groups.clone(),
            groups: GroupPreferences { disabled: copy_texts(&self.groups.disabled) },
            modules: ModulePreferences { disabled: copy_texts(&self.modules.disabled) },
        }
    }
}

/// Nothing recorded: everything is on.
pub open spec fn no_preferences() -> PreferencesView {
    PreferencesView { choices: Map::empty(), groups_off: Seq::empty(), modules_off: Seq::empty() }
}

// ── Files ────────────────────────────────────────────────────────────────────

/// The path of `name` in the directory `root`.
pub open spec fn in_directory(root: Seq<char>, name: Seq<char>) -> Seq<char> {
    if root.len() == 0 || ends(root, "/"@) {
        root + name
    } else {
        root + "/"@ + name
    }
}

/// The path of `name`, which is no absolute path, in the directory `root`.
pub fn join_path(root: &str, name: &str) -> (r: String)
    ensures
        r@ == in_directory(root@, name@),
{
    if same_text(root, "") || ends_with(root, "/") {
        proof {
            reveal_strlit("");
            if root@ == ""@ {
                assert(root@.len() == 0);
            }
        }
        joined(root, name)
    } else {
        proof {
            reveal_strlit("");
            if root@.len() == 0 {
                assert(root@ =~= ""@);
            }
        }
        joined3(root, "/", name)
    }
}

/// Where preferences are kept for a user's configuration directory.
pub fn path_in(user_root: &str) -> (r: String)
    ensures
        r@ == in_directory(user_root@, "preferences.toml"@),
{
    join_path(user_root, "preferences.toml")
}

/// Whether a file holds preferences rather than a configuration.
pub fn is_preferences_file(file_name: &str) -> (r: bool)
    ensures
        r == (file_name@ == "preferences.toml"@),
{
    same_text(file_name, "preferences.toml")
}

/// Whether the shipped preferences are to be copied into the user's directory:
/// only where there are some and the user has none.
pub fn needs_seed(target_exists: bool, source_exists: bool) -> (r: bool)
    ensures
        r == (!target_exists && source_exists),
{
    !target_exists && source_exists
}

// ── Choices ──────────────────────────────────────────────────────────────────

/// A list without the members in `gone`.
pub open spec fn without(s: Seq<Seq<char>>, gone: Set<Seq<char>>) -> Seq<Seq<char>>
    decreases s.len(),
{
    if s.len() == 0 {
        s
    } else if gone.contains(s.last()) {
        without(s.drop_last(), gone)
    } else {
        without(s.drop_last(), gone).push(s.last())
    }
}

pub proof fn lemma_without(s: Seq<Seq<char>>, gone: Set<Seq<char>>)
    ensures
        forall|x: Seq<char>| #[trigger]
            without(s, gone).contains(x) <==> (s.contains(x) && !gone.contains(x)),
    decreases s.len(),
{
    if s.len() > 0 {
        let init = s.drop_last();
        let rest = without(init, gone);
        lemma_without(init, gone);
        assert forall|x: Seq<char>| #[trigger]
            without(s, gone).contains(x) <==> (s.contains(x) && !gone.contains(x)) by {
            assert(s =~= init.push(s.last()));
            assert(rest.contains(x) <==> (init.contains(x) && !gone.contains(x)));
            if s.contains(x) {
                let i = choose|i: int| 0 <= i < s.len() && s[i] == x;
                if i < init.len() {
                    assert(init[i] == x);
                }
            }
            if init.contains(x) {
                let i = choose|i: int| 0 <= i < init.len() && init[i] == x;
                assert(s[i] == x);
            }
            assert(s[s.len() - 1] == s.last());
            if !gone.contains(s.last()) {
                let all = rest.push(s.last());
                if rest.contains(x) {
                    let i = choose|i: int| 0 <= i < rest.len() && rest[i] == x;
                    assert(all[i] == x);
                }
                assert(all[rest.len() as int] == s.last());
                if all.contains(x) {
                    let i = choose|i: int| 0 <= i < all.len() && all[i] == x;
                    if i < rest.len() {
                        assert(rest[i] == x);
                    }
                }
            }
        }
    }
}

/// A list of what is switched off, after `name` was switched off or on.
pub open spec fn switched(s: Seq<Seq<char>>, name: Seq<char>, off: bool) -> Seq<Seq<char>> {
    if off {
        without(s, set![name]).push(name)
    } else {
        without(s, set![name])
    }
}

pub proof fn lemma_switched(s: Seq<Seq<char>>, name: Seq<char>, off: bool)
    ensures
        forall|x: Seq<char>| #[trigger]
            switched(s, name, off).contains(x) <==> (if x == name {
                off
            } else {
                s.contains(x)
            }),
{
    lemma_without(s, set![name]);
    let rest = without(s, set![name]);
    assert forall|x: Seq<char>| #[trigger]
        switched(s, name, off).contains(x) <==> (if x == name {
            off
        } else {
            s.contains(x)
        }) by {
        assert(rest.contains(x) <==> (s.contains(x) && x != name));
        if off {
            let all = rest.push(name);
            assert(all[rest.len() as int] == name);
            if rest.contains(x) {
                let i = choose|i: int| 0 <= i < rest.len() && rest[i] == x;
                assert(all[i] == x);
            }
            if all.contains(x) {
                let i = choose|i: int| 0 <= i < all.len() && all[i] == x;
                if i < rest.len() {
                    assert(rest[i] == x);
                }
            }
        }
    }
}

/// A list of texts holds a text exactly if its views do.
pub proof fn lemma_listed(list: Seq<String>, s: Seq<char>)
    ensures
        listed(list, s) <==> views(list).contains(s),
{
    if listed(list, s) {
        let i = choose|i: int| 0 <= i < list.len() && (#[trigger] list[i])@ == s;
        assert(views(list)[i] == s);
    }
    if views(list).contains(s) {
        let i = choose|i: int| 0 <= i < views(list).len() && views(list)[i] == s;
        assert(list[i]@ == s);
    }
}

/// Whether `q` is `p` with a module switched off or on.
pub open spec fn module_switched(
    p: PreferencesView,
    q: PreferencesView,
    name: Seq<char>,
    off: bool,
) -> bool {
    &&& sorts::<String>(q.modules_off, switched(p.modules_off, name, off))
    &&& q == (PreferencesView { modules_off: q.modules_off, ..p })
}

/// Whether `q` is `p` with a group switched off or on.
pub open spec fn group_switched(
    p: PreferencesView,
    q: PreferencesView,
    group: Seq<char>,
    off: bool,
) -> bool {
    &&& sorts::<String>(q.groups_off, switched(p.groups_off, group, off))
    &&& q == (PreferencesView { groups_off: q.groups_off, ..p })
}

/// Whether `q` is `p` with a member of a group picked: the choice is recorded,
/// no sibling is listed as switched off, and the group is on.
pub open spec fn member_picked(
    p: PreferencesView,
    q: PreferencesView,
    group: Seq<char>,
    name: Seq<char>,
    siblings: Seq<Seq<char>>,
) -> bool {
    &&& q.choices == p.choices.insert(group, name)
    &&& q.modules_off == without(p.modules_off, siblings.to_set())
    &&& sorts::<String>(q.groups_off, switched(p.groups_off, group, false))
}

fn retain_others(list: &Vec<String>, name: &str) -> (r: Vec<String>)
    ensures
        views(r@) == without(views(list@), set![name@]),
{
    let mut r: Vec<String> = Vec::new();
    let mut i: usize = 0;
    let ghost all = views(list@);
    let ghost gone = set![name@];
    assert(views(r@) =~= without(all.take(0), gone));
    while i < list.len()
        invariant
            i <= list@.len(),
            all == views(list@),
            gone == set![name@],
            views(r@) == without(all.take(i as int), gone),
        decreases list@.len() - i,
    {
        let ghost before = views(r@);
        if !same_text(list[i].as_str(), name) {
            r.push(list[i].clone());
            assert(views(r@) =~= before.push(all[i as int]));
        }
        i = i + 1;
        proof {
            assert(all.take(i as int).drop_last() =~= all.take(i - 1));
            assert(all.take(i as int).last() == all[i - 1]);
        }
    }
    assert(all.take(i as int) =~= all);
    r
}

fn retain_unlisted(list: &Vec<String>, gone: &Vec<String>) -> (r: Vec<String>)
    ensures
        views(r@) == without(views(list@), views(gone@).to_set()),
{
    let mut r: Vec<String> = Vec::new();
    let mut i: usize = 0;
    let ghost all = views(list@);
    let ghost out = views(gone@).to_set();
    assert(views(r@) =~= without(all.take(0), out));
    while i < list.len()
        invariant
            i <= list@.len(),
            all == views(list@),
            out == views(gone@).to_set(),
            views(r@) == without(all.take(i as int), out),
        decreases list@.len() - i,
    {
        let ghost before = views(r@);
        proof {
            lemma_listed(gone@, list@[i as int]@);
            assert(out.contains(list@[i as int]@) <==> views(gone@).contains(list@[i as int]@));
        }
        if !lists(gone, list[i].as_str()) {
            r.push(list[i].clone());
            assert(views(r@) =~= before.push(all[i as int]));
        }
        i = i + 1;
        proof {
            assert(all.take(i as int).drop_last() =~= all.take(i - 1));
            assert(all.take(i as int).last() == all[i - 1]);
        }
    }
    assert(all.take(i as int) =~= all);
    r
}

fn switch(list: &Vec<String>, name: &str, off: bool) -> (r: Vec<String>)
    ensures
        sorts::<String>(views(r@), switched(views(list@), name@, off)),
{
    let mut kept: Vec<String> = retain_others(list, name);
    if off {
        let ghost before = views(kept@);
        kept.push(name.to_owned());
        assert(views(kept@) =~= before.push(name@));
    }
    sorted(&kept)
}

impl Preferences {
    /// Whether a module is switched off.
    pub fn is_disabled(&self, name: &str) -> (r: bool)
        ensures
            r == self@.modules_off.contains(name@),
    {
        proof {
            lemma_listed(self.modules.disabled@, name@);
        }
        lists(&self.modules.disabled, name)
    }

    /// Switch a module off, or back on. The list is kept in order, and nothing
    /// else changes.
    pub fn set_disabled(&mut self, name: &str, disabled: bool)
        ensures
            module_switched(old(self)@, final(self)@, name@, disabled),
            final(self)@.modules_off.contains(name@) == disabled,
            forall|n: Seq<char>|
                n != name@ ==> (#[trigger] final(self)@.modules_off.contains(n)
                    == old(self)@.modules_off.contains(n)),
    {
        self.modules.disabled = switch(&self.modules.disabled, name, disabled);
        proof {
            let s = old(self)@.modules_off;
            lemma_switched(s, name@, disabled);
            lemma_sorts_members::<String>(self@.modules_off, switched(s, name@, disabled));
            assert forall|n: Seq<char>| n != name@ implies (#[trigger] self@.modules_off.contains(n)
                == s.contains(n)) by {
                assert(switched(s, name@, disabled).contains(n) <==> s.contains(n));
            }
            assert(switched(s, name@, disabled).contains(name@) <==> disabled);
        }
    }

    /// Record the picked member of an exclusive group. Its siblings are not
    /// listed as switched off: the choice says it all. Picking a member also
    /// switches the group on.
    pub fn set_group_choice(&mut self, group: &str, name: &str, siblings: &Vec<String>)
        ensures
            member_picked(old(self)@, final(self)@, group@, name@, views(siblings@)),
            !final(self)@.groups_off.contains(group@),
            forall|g: Seq<char>|
                g != group@ ==> (#[trigger] final(self)@.groups_off.contains(g)
                    == old(self)@.groups_off.contains(g)),
    {
        self.exclusive_groups.insert(group.to_owned(), name.to_owned());
        self.modules.disabled = retain_unlisted(&self.modules.disabled, siblings);
        self.set_group_disabled(group, false);
    }

    /// The picked member of an exclusive group.
    pub fn group_choice(&self, group: &str) -> (r: Option<&str>)
        ensures
            match r {
                Some(n) => self@.choices.contains_key(group@) && n@ == self@.choices[group@],
                None => !self@.choices.contains_key(group@),
            },
    {
        match self.exclusive_groups.get(&group.to_owned()) {
            Some(n) => Some(n.as_str()),
            None => None,
        }
    }

    /// Whether a whole group is switched off.
    pub fn is_group_disabled(&self, group: &str) -> (r: bool)
        ensures
            r == self@.groups_off.contains(group@),
    {
        proof {
            lemma_listed(self.groups.disabled@, group@);
        }
        lists(&self.groups.disabled, group)
    }

    /// Switch a whole group off, or back on. The member that was picked stays
    /// recorded.
    pub fn set_group_disabled(&mut self, group: &str, disabled: bool)
        ensures
            group_switched(old(self)@, final(self)@, group@, disabled),
            final(self)@.groups_off.contains(group@) == disabled,
            forall|g: Seq<char>|
                g != group@ ==> (#[trigger] final(self)@.groups_off.contains(g)
                    == old(self)@.groups_off.contains(g)),
    {
        self.groups.disabled = switch(&self.groups.disabled, group, disabled);
        proof {
            let s = old(self)@.groups_off;
            lemma_switched(s, group@, disabled);
            lemma_sorts_members::<String>(self@.groups_off, switched(s, group@, disabled));
            assert forall|g: Seq<char>| g != group@ implies (#[trigger] self@.groups_off.contains(g)
                == s.contains(g)) by {
                assert(switched(s, group@, disabled).contains(g) <==> s.contains(g));
            }
            assert(switched(s, group@, disabled).contains(group@) <==> disabled);
        }
    }
}

// ── What is recorded ─────────────────────────────────────────────────────────

/// Switching a module off or on records exactly that: its name is listed or is
/// not, and nothing else changes.
pub proof fn law_switching_a_module_is_recorded(
    p: PreferencesView,
    q: PreferencesView,
    name: Seq<char>,
    off: bool,
)
    requires
        module_switched(p, q, name, off),
    ensures
        q.modules_off.contains(name) == off,
        forall|x: Seq<char>| x != name ==> #[trigger] q.modules_off.contains(x)
            == p.modules_off.contains(x),
        q.choices == p.choices,
        q.groups_off == p.groups_off,
{
    lemma_sorts_members::<String>(q.modules_off, switched(p.modules_off, name, off));
    lemma_switched(p.modules_off, name, off);
}

/// Switching a group off or on records exactly that: its name is listed or is
/// not, and nothing else changes. The recorded member outlasts it.
pub proof fn law_switching_a_group_is_recorded(
    p: PreferencesView,
    q: PreferencesView,
    group: Seq<char>,
    off: bool,
)
    requires
        group_switched(p, q, group, off),
    ensures
        q.groups_off.contains(group) == off,
        forall|x: Seq<char>| x != group ==> #[trigger] q.groups_off.contains(x)
            == p.groups_off.contains(x),
        q.choices == p.choices,
        q.modules_off == p.modules_off,
{
    lemma_sorts_members::<String>(q.groups_off, switched(p.groups_off, group, off));
    lemma_switched(p.groups_off, group, off);
}

/// Picking a member records it for its group, switches the group on and takes
/// its siblings off the list of what is off. Other groups and modules stay as
/// they are.
pub proof fn law_picking_a_member_is_recorded(
    p: PreferencesView,
    q: PreferencesView,
    group: Seq<char>,
    name: Seq<char>,
    siblings: Seq<Seq<char>>,
)
    requires
        member_picked(p, q, group, name, siblings),
    ensures
        q.choices.contains_key(group) && q.choices[group] == name,
        forall|g: Seq<char>|
            #![trigger q.choices.contains_key(g)]
            g != group ==> q.choices.contains_key(g) == p.choices.contains_key(g) && (
            p.choices.contains_key(g) ==> q.choices[g] == p.choices[g]),
        !q.groups_off.contains(group),
        forall|g: Seq<char>| g != group ==> #[trigger] q.groups_off.contains(g)
            == p.groups_off.contains(g),
        forall|x: Seq<char>| #[trigger] q.modules_off.contains(x) <==> p.modules_off.contains(x)
            && !siblings.contains(x),
{
    lemma_sorts_members::<String>(q.groups_off, switched(p.groups_off, group, false));
    lemma_switched(p.groups_off, group, false);
    lemma_without(p.modules_off, siblings.to_set());
    broadcast use vstd::seq_lib::group_seq_properties;

}

/// A file is in a directory behind one slash, whether the directory is written
/// with one or not.
pub proof fn law_paths_have_one_slash(root: Seq<char>, name: Seq<char>)
    requires
        root.len() > 0,
        root.last() != '/',
    ensures
        in_directory(root, name) == root + seq!['/'] + name,
        in_directory(root + seq!['/'], name) == root + seq!['/'] + name,
{
    reveal_strlit("/");
    assert("/"@ =~= seq!['/']);
    let slashed = root + seq!['/'];
    assert(slashed.skip(slashed.len() - 1) =~= "/"@);
    if ends(root, "/"@) {
        assert(root.skip(root.len() - 1)[0] == root.last());
        assert("/"@[0] == '/');
    }
}

} // verus!
