//! Configuration files: where they are, what they are called, and which files
//! in their directories are something else.

use crate::config::TextTable;
use crate::event::{event_from_name, event_of_name};
use crate::keyed::KeyedList;
use crate::preferences::is_preferences_file;
use crate::text::{
    chars_of, cut_last, ends, ends_with, joined, part, same_text, split_at_last, starts,
    starts_with, text_in,
};
use vstd::prelude::*;

verus! {

// ── Where files are read from ────────────────────────────────────────────────

/// The two directories that files are read from. A file in the user's replaces
/// the shipped file of the same name.
#[derive(Debug, Clone, PartialEq, Eq)]
pub struct ConfigRoots {
    pub system: String,
    pub user: String,
}

/// The name of the explanation that is copied into the user's directory.
pub const README_NAME: &'static str = "README.md";

/// The home directory of the user that started the program. Under `sudo` that
/// is not the one of the process.
pub open spec fn home_of(home: Option<Seq<char>>, sudo_user: Option<Seq<char>>) -> Seq<char> {
    match home {
        Some(h) => if h == "/root"@ && sudo_user is Some {
            "/home/"@ + sudo_user->0
        } else {
            h
        },
        None => "/root"@,
    }
}

/// The home directory of the user that started the program.
pub fn user_home(home: &Option<String>, sudo_user: &Option<String>) -> (r: String)
    ensures
        r@ == home_of(text_in(*home), text_in(*sudo_user)),
{
    match home {
        Some(h) => {
            if same_text(h.as_str(), "/root") {
                if let Some(user) = sudo_user {
                    return joined("/home/", user.as_str());
                }
            }
            h.clone()
        },
        None => "/root".to_owned(),
    }
}

/// The directory of the shipped files in a working copy below `home`.
pub fn checkout_directory(home: &str) -> (r: String)
    ensures
        r@ == home@ + "/.local/share/deckery/deckery/configs"@,
{
    joined(home, "/.local/share/deckery/deckery/configs")
}

impl ConfigRoots {
    /// The two directories, from the variables of the environment that name
    /// them. A working copy goes before the packaged files.
    pub fn resolve(
        home: &str,
        deckery_config: &Option<String>,
        makima_config: &Option<String>,
        deckery_system_config: &Option<String>,
        checkout_exists: bool,
    ) -> (r: ConfigRoots)
        ensures
            r.user@ == match text_in(*deckery_config) {
                Some(p) => p,
                None => match text_in(*makima_config) {
                    Some(p) => p,
                    None => home@ + "/.config/deckery"@,
                },
            },
            r.system@ == match text_in(*deckery_system_config) {
                Some(p) => p,
                None => if checkout_exists {
                    home@ + "/.local/share/deckery/deckery/configs"@
                } else {
                    "/usr/share/deckery/configs"@
                },
            },
    {
        ConfigRoots {
            user: match deckery_config {
                Some(p) => p.clone(),
                None => match makima_config {
                    Some(p) => p.clone(),
                    None => joined(home, "/.config/deckery"),
                },
            },
            system: match deckery_system_config {
                Some(p) => p.clone(),
                None => if checkout_exists {
                    checkout_directory(home)
                } else {
                    "/usr/share/deckery/configs".to_owned()
                },
            },
        }
    }

    pub fn copy(&self) -> (r: ConfigRoots)
        ensures
            r == *self,
    {
        ConfigRoots { system: self.system.clone(), user: self.user.clone() }
    }
}

fn same_bytes(a: &Vec<u8>, b: &Vec<u8>) -> (r: bool)
    ensures
        r == (a@ == b@),
{
    if a.len() != b.len() {
        return false;
    }
    let mut i: usize = 0;
    while i < a.len()
        invariant
            i <= a@.len() == b@.len(),
            forall|j: int| 0 <= j < i ==> #[trigger] a@[j] == b@[j],
        decreases a@.len() - i,
    {
        if a[i] != b[i] {
            return false;
        }
        i = i + 1;
    }
    assert(a@ =~= b@);
    true
}

/// Whether the explanation in the user's directory is to be written: not where
/// none is shipped, and not where it is the same already.
pub fn needs_readme(shipped: &Option<Vec<u8>>, current: &Option<Vec<u8>>) -> (r: bool)
    ensures
        r == match *shipped {
            Some(s) => match *current {
                Some(c) => s@ != c@,
                None => true,
            },
            None => false,
        },
{
    match shipped {
        Some(s) => match current {
            Some(c) => !same_bytes(s, c),
            None => true,
        },
        None => false,
    }
}

/// Whether a file in one of the directories holds a configuration.
pub open spec fn names_config(file_name: Seq<char>) -> bool {
    ends(file_name, ".toml"@) && !starts(file_name, "."@) && file_name != "preferences.toml"@
}

/// Whether a file in one of the directories holds a configuration.
pub fn is_config_file(file_name: &str) -> (r: bool)
    ensures
        r == names_config(file_name@),
{
    ends_with(file_name, ".toml") && !starts_with(file_name, ".") && !is_preferences_file(file_name)
}

/// A file name without the ending, however often it is there.
pub open spec fn without_ending(file_name: Seq<char>) -> Seq<char>
    decreases file_name.len(),
{
    if file_name.len() >= 5 && file_name.skip(file_name.len() - 5) == ".toml"@ {
        without_ending(file_name.take(file_name.len() - 5))
    } else {
        file_name
    }
}

/// The name of the configuration in a file.
pub fn config_name(file_name: &str) -> (r: String)
    ensures
        r@ == without_ending(file_name@),
{
    let mut r: String = file_name.to_owned();
    proof {
        reveal_strlit(".toml");
    }
    let mut n: usize = chars_of(file_name).len();
    while n >= 5 && ends_with(r.as_str(), ".toml")
        invariant
            n == r@.len(),
            ".toml"@.len() == 5,
            without_ending(file_name@) == without_ending(r@),
        decreases n,
    {
        r = part(r.as_str(), 0, n - 5);
        n = n - 5;
    }
    r
}

/// Whether a change of a file is a change of a configuration.
pub fn is_watched_file(file_name: &str) -> (r: bool)
    ensures
        r == (match cut_last(file_name@, '.') {
            Some((stem, ending)) => stem.len() > 0 && ending == "toml"@,
            None => false,
        } && file_name@ != "preferences.toml"@),
{
    match split_at_last(file_name, '.') {
        Some((stem, ending)) => {
            proof {
                reveal_strlit("");
                if stem@.len() == 0 {
                    assert(stem@ =~= ""@);
                }
            }
            !same_text(stem.as_str(), "") && same_text(ending.as_str(), "toml")
                && !is_preferences_file(file_name)
        },
        None => false,
    }
}

/// The aliases that are read from files: pairs of a name and an event's name,
/// without those that name no event. A later line goes before an earlier one.
pub open spec fn aliases_of(lines: Seq<(String, String)>) -> Map<Seq<char>, Seq<char>>
    decreases lines.len(),
{
    if lines.len() == 0 {
        Map::empty()
    } else {
        let before = aliases_of(lines.drop_last());
        let (alias, target) = lines.last();
        if event_of_name(target@) is Some {
            before.insert(alias@, target@)
        } else {
            before
        }
    }
}

/// The aliases that are read from files, the shipped ones first.
pub fn collect_aliases(lines: &Vec<(String, String)>) -> (r: TextTable)
    ensures
        r@ == aliases_of(lines@),
{
    let mut r: TextTable = KeyedList::new();
    let mut i: usize = 0;
    assert(lines@.take(0) =~= Seq::<(String, String)>::empty());
    while i < lines.len()
        invariant
            i <= lines@.len(),
            r@ == aliases_of(lines@.take(i as int)),
        decreases lines@.len() - i,
    {
        if event_from_name(lines[i].1.as_str()).is_some() {
            r.insert(lines[i].0.clone(), lines[i].1.clone());
        }
        i = i + 1;
        proof {
            assert(lines@.take(i as int).drop_last() =~= lines@.take(i - 1));
            assert(lines@.take(i as int).last() == lines@[i - 1]);
        }
    }
    assert(lines@.take(i as int) =~= lines@);
    r
}

// ── What files are for ───────────────────────────────────────────────────────

/// The home directory is the one that the environment names. Under `sudo` it is
/// that of the user behind it, and without any it is that of the root user.
pub proof fn law_home_is_that_of_the_user(home: Seq<char>, user: Seq<char>)
    ensures
        home_of(Some("/root"@), Some(user)) == "/home/"@ + user,
        home_of(Some("/root"@), None) == "/root"@,
        home != "/root"@ ==> home_of(Some(home), Some(user)) == home,
        home_of(Some(home), None) == home,
        home_of(None, Some(user)) == "/root"@,
        home_of(None, None) == "/root"@,
{
}

/// A file holds a configuration where its name ends in `.toml`, it is not
/// hidden and it is not the file of the preferences; the name of the
/// configuration is what stands before the ending.
pub proof fn law_config_files_are_named_after_their_configs(stem: Seq<char>, other: Seq<char>)
    requires
        stem.len() > 0,
    ensures
        names_config(stem + ".toml"@) <==> stem[0] != '.' && stem != "preferences"@,
        without_ending(stem + ".toml"@) == without_ending(stem),
        !ends(other, ".toml"@) ==> !names_config(other) && without_ending(other) == other,
{
    reveal_strlit(".toml");
    reveal_strlit(".");
    reveal_strlit("preferences");
    reveal_strlit("preferences.toml");
    let name = stem + ".toml"@;
    assert(name.skip(name.len() - 5) =~= ".toml"@);
    assert(name.take(name.len() - 5) =~= stem);
    assert("preferences.toml"@ =~= "preferences"@ + ".toml"@);
    assert("preferences.toml"@.take(11) =~= "preferences"@);
    if name == "preferences.toml"@ {
        assert(stem =~= "preferences"@);
    }
    if stem[0] == '.' {
        assert(name.take(1) =~= "."@);
    } else if starts(name, "."@) {
        assert(name.take(1)[0] == name[0]);
        assert("."@[0] == '.');
    }
}

/// An alias stands for what the last line that names it says, of the lines that
/// name an event; a line that names none brings no alias.
pub proof fn law_last_alias_counts(lines: Seq<(String, String)>, i: int)
    requires
        0 <= i < lines.len(),
        event_of_name(lines[i].1@) is Some,
        forall|j: int|
            #![trigger lines[j]]
            i < j < lines.len() && event_of_name(lines[j].1@) is Some ==> lines[j].0@
                != lines[i].0@,
    ensures
        aliases_of(lines).contains_key(lines[i].0@),
        aliases_of(lines)[lines[i].0@] == lines[i].1@,
    decreases lines.len(),
{
    if i < lines.len() - 1 {
        let init = lines.drop_last();
        assert(init[i] == lines[i]);
        assert forall|j: int|
            #![trigger init[j]]
            i < j < init.len() && event_of_name(init[j].1@) is Some implies init[j].0@
            != init[i].0@ by {
            assert(init[j] == lines[j]);
        }
        law_last_alias_counts(init, i);
    }
}

/// Every alias comes from a line that names an event.
pub proof fn law_aliases_come_from_lines(lines: Seq<(String, String)>, alias: Seq<char>)
    requires
        aliases_of(lines).contains_key(alias),
    ensures
        exists|i: int|
            0 <= i < lines.len() && (#[trigger] lines[i]).0@ == alias && aliases_of(lines)[alias]
                == lines[i].1@ && event_of_name(lines[i].1@) is Some,
    decreases lines.len(),
{
    let init = lines.drop_last();
    let last = lines.last();
    if event_of_name(last.1@) is Some && last.0@ == alias {
        assert(lines[lines.len() - 1] == last);
    } else {
        law_aliases_come_from_lines(init, alias);
        let i = choose|i: int|
            0 <= i < init.len() && (#[trigger] init[i]).0@ == alias && aliases_of(init)[alias]
                == init[i].1@ && event_of_name(init[i].1@) is Some;
        assert(lines[i] == init[i]);
    }
}

} // verus!
