//! The desktop session: which window has the focus, which display server was
//! found, and what is taken over from the user's environment.

use crate::config::TextTable;
use crate::text::{
    first_index, joined3, lemma_first_index, pieces, same_text, split_at_first, split_text, text_in,
};
use vstd::prelude::*;

verus! {

/// The focused window.
#[derive(Debug, Clone, PartialEq, Eq)]
pub enum Client {
    /// No window that anything is configured for.
    Default,
    /// The window's class, its title, and the process that owns it where that
    /// is known.
    Class(String, String, Option<u32>),
}

/// The class of the focused window.
pub open spec fn client_class(client: Client) -> Option<Seq<char>> {
    match client {
        Client::Class(class, _, _) => Some(class@),
        Client::Default => None,
    }
}

impl Default for Client {
    fn default() -> (r: Self)
        ensures
            r == Client::Default,
    {
        Client::Default
    }
}

/// Which display server was found.
#[derive(Debug, Clone, PartialEq, Eq)]
pub enum Server {
    Connected(String),
    Unsupported,
    Failed,
}

/// The environment that readers are started with.
#[derive(Debug, Clone, PartialEq, Eq)]
pub struct Environment {
    pub user: Option<String>,
    pub sudo_user: Option<String>,
    pub server: Server,
}

/// Milliseconds since the start, from the microseconds that have passed; none
/// before the start.
pub fn startup_ms(passed_us: Option<u64>) -> (r: u128)
    ensures
        r == match passed_us {
            Some(us) => us / 1000,
            None => 0,
        },
{
    match passed_us {
        Some(us) => (us / 1000) as u128,
        None => 0,
    }
}

// ── Display servers ──────────────────────────────────────────────────────────

/// The session type, where a running Wayland display makes up for none.
pub open spec fn session_of(session: Option<Seq<char>>, wayland_display: Option<Seq<char>>) -> Option<
    Seq<char>,
> {
    match session {
        Some(s) => Some(s),
        None => if wayland_display is Some {
            Some("wayland"@)
        } else {
            None
        },
    }
}

/// Whether the focused window can be asked for on a Wayland desktop.
pub open spec fn supported(desktop: Seq<char>) -> bool {
    desktop == "KDE"@ || desktop == "Hyprland"@ || desktop == "sway"@ || desktop == "niri"@
}

/// The display server of a session: none without a session, and then the
/// program has nothing to do.
pub open spec fn is_server_of(
    r: Option<Server>,
    session: Option<Seq<char>>,
    desktop: Option<Seq<char>>,
) -> bool {
    match session {
        None => r is None,
        Some(s) => r matches Some(server) && (if s == "wayland"@ {
            match desktop {
                Some(d) => if supported(d) {
                    server matches Server::Connected(name) && name@ == d
                } else {
                    server is Unsupported
                },
                None => server is Unsupported,
            }
        } else if s == "x11"@ {
            server matches Server::Connected(name) && name@ == "x11"@
        } else {
            server is Failed
        }),
    }
}

/// The display server of a session, from the variables that describe it.
pub fn find_server(
    session_type: &Option<String>,
    wayland_display: &Option<String>,
    current_desktop: &Option<String>,
) -> (r: Option<Server>)
    ensures
        is_server_of(
            r,
            session_of(text_in(*session_type), text_in(*wayland_display)),
            text_in(*current_desktop),
        ),
{
    let session: String = match session_type {
        Some(s) => s.clone(),
        None => {
            if wayland_display.is_some() {
                "wayland".to_owned()
            } else {
                return None;
            }
        },
    };
    if same_text(session.as_str(), "wayland") {
        match current_desktop {
            Some(d) => {
                if same_text(d.as_str(), "KDE") || same_text(d.as_str(), "Hyprland") || same_text(
                    d.as_str(),
                    "sway",
                ) || same_text(d.as_str(), "niri") {
                    Some(Server::Connected(d.clone()))
                } else {
                    Some(Server::Unsupported)
                }
            },
            None => Some(Server::Unsupported),
        }
    } else if same_text(session.as_str(), "x11") {
        Some(Server::Connected(session))
    } else {
        Some(Server::Failed)
    }
}

// ── Variables ────────────────────────────────────────────────────────────────

/// Where the session's message bus is.
#[derive(Debug, Clone, PartialEq, Eq)]
pub enum BusAddress {
    /// The environment says so already.
    Known,
    /// It is to be set to this.
    At(String),
    /// It cannot be told for the root user.
    Unknown,
}

/// Where the session's message bus is, given the number of the user.
pub fn bus_address(known: bool, uid: &str) -> (r: BusAddress)
    ensures
        match r {
            BusAddress::Known => known,
            BusAddress::At(a) => !known && uid@ != "0"@ && a@ == "unix:path=/run/user/"@ + uid@
                + "/bus"@,
            BusAddress::Unknown => !known && uid@ == "0"@,
        },
{
    if known {
        BusAddress::Known
    } else if !same_text(uid, "0") {
        BusAddress::At(joined3("unix:path=/run/user/", uid, "/bus"))
    } else {
        BusAddress::Unknown
    }
}

/// The environment after a line of the user's: a variable that is not there is
/// taken over, and a search path goes in front of the one that is.
pub open spec fn with_variable(
    variables: Map<Seq<char>, Seq<char>>,
    line: Seq<char>,
) -> Map<Seq<char>, Seq<char>> {
    let i = first_index(line, '=');
    if i < line.len() {
        let name = line.take(i);
        let value = line.skip(i + 1);
        if !variables.contains_key(name) {
            variables.insert(name, value)
        } else if name == "PATH"@ {
            variables.insert("PATH"@, value + ":"@ + variables["PATH"@])
        } else {
            variables
        }
    } else {
        variables
    }
}

/// The environment after several lines of the user's.
pub open spec fn with_variables(
    variables: Map<Seq<char>, Seq<char>>,
    lines: Seq<Seq<char>>,
) -> Map<Seq<char>, Seq<char>>
    decreases lines.len(),
{
    if lines.len() == 0 {
        variables
    } else {
        with_variable(with_variables(variables, lines.drop_last()), lines.last())
    }
}

fn add_variable(variables: &mut TextTable, line: &str)
    ensures
        final(variables)@ == with_variable(old(variables)@, line@),
{
    if let Some((name, value)) = split_at_first(line, '=') {
        let old: Option<String> = match variables.get(&name) {
            Some(v) => Some(v.clone()),
            None => None,
        };
        match old {
            None => {
                variables.insert(name, value);
            },
            Some(v) => {
                if same_text(name.as_str(), "PATH") {
                    variables.insert(name, joined3(value.as_str(), ":", v.as_str()));
                }
            },
        }
    }
}

/// Take over what is missing from the user's environment, as the service
/// manager prints it.
pub fn copy_variables(variables: &mut TextTable, printed: &str)
    ensures
        final(variables)@ == with_variables(old(variables)@, pieces(printed@, '\n')),
{
    let lines: Vec<String> = split_text(printed, '\n');
    let ghost all = crate::order::views(lines@);
    let ghost was = variables@;
    let mut i: usize = 0;
    assert(all.take(0) =~= Seq::<Seq<char>>::empty());
    while i < lines.len()
        invariant
            i <= lines@.len(),
            all == crate::order::views(lines@),
            variables@ == with_variables(was, all.take(i as int)),
        decreases lines@.len() - i,
    {
        add_variable(variables, lines[i].as_str());
        i = i + 1;
        proof {
            assert(all.take(i as int).drop_last() =~= all.take(i - 1));
            assert(all.take(i as int).last() == all[i - 1]);
        }
    }
    assert(all.take(i as int) =~= all);
}

/// A variable that is there is never lost, and only the search path changes.
pub proof fn law_variables_are_kept(
    variables: Map<Seq<char>, Seq<char>>,
    lines: Seq<Seq<char>>,
    name: Seq<char>,
)
    requires
        variables.contains_key(name),
    ensures
        with_variables(variables, lines).contains_key(name),
        name != "PATH"@ ==> with_variables(variables, lines)[name] == variables[name],
    decreases lines.len(),
{
    if lines.len() > 0 {
        law_variables_are_kept(variables, lines.drop_last(), name);
    }
}

/// A running session of X11 is asked as such. A Wayland session is asked as its
/// desktop where that is one of four; any other desktop, or none, is
/// unsupported. A session of any other kind has failed, and without a session
/// there is no server at all.
pub proof fn law_servers_follow_the_session(
    r: Option<Server>,
    session: Seq<char>,
    desktop: Option<Seq<char>>,
)
    ensures
        is_server_of(r, None, desktop) <==> r is None,
        is_server_of(r, Some("x11"@), desktop) <==> (r matches Some(Server::Connected(name))
            && name@ == "x11"@),
        forall|d: Seq<char>|
            #![trigger supported(d)]
            d == "KDE"@ || d == "Hyprland"@ || d == "sway"@ || d == "niri"@ ==> (is_server_of(
                r,
                Some("wayland"@),
                Some(d),
            ) <==> (r matches Some(Server::Connected(name)) && name@ == d)),
        forall|d: Seq<char>|
            #![trigger supported(d)]
            d != "KDE"@ && d != "Hyprland"@ && d != "sway"@ && d != "niri"@ ==> (is_server_of(
                r,
                Some("wayland"@),
                Some(d),
            ) <==> r == Some(Server::Unsupported)),
        is_server_of(r, Some("wayland"@), None) <==> r == Some(Server::Unsupported),
        session != "x11"@ && session != "wayland"@ ==> (is_server_of(r, Some(session), desktop)
            <==> r == Some(Server::Failed)),
{
    reveal_strlit("x11");
    reveal_strlit("wayland");
    assert("x11"@.len() != "wayland"@.len());
}

/// The session is of the type that is named. Where none is named, a Wayland
/// display stands for a Wayland session.
pub proof fn law_wayland_display_stands_for_its_session(session: Seq<char>, display: Seq<char>)
    ensures
        session_of(Some(session), None) == Some(session),
        session_of(Some(session), Some(display)) == Some(session),
        session_of(None, Some(display)) == Some("wayland"@),
        session_of(None, None) is None,
{
}

/// A line `name=value` brings the variable where it is missing. Where it is
/// there already, only the search path is touched: the line's goes in front,
/// with a colon between. A value may hold further signs of equality, and a
/// line without one brings nothing.
pub proof fn law_missing_variables_are_taken_over(
    variables: Map<Seq<char>, Seq<char>>,
    lines: Seq<Seq<char>>,
    name: Seq<char>,
    value: Seq<char>,
)
    requires
        !name.contains('='),
    ensures
        ({
            let before = with_variables(variables, lines);
            let after = with_variables(variables, lines.push(name + seq!['='] + value));
            &&& !before.contains_key(name) ==> after == before.insert(name, value)
            &&& before.contains_key(name) && name == "PATH"@ ==> after == before.insert(
                name,
                value + seq![':'] + before[name],
            )
            &&& before.contains_key(name) && name != "PATH"@ ==> after == before
        }),
        with_variables(variables, lines.push(name)) == with_variables(variables, lines),
{
    let line = name + seq!['='] + value;
    assert forall|j: int| 0 <= j < name.len() implies #[trigger] line[j] != '=' by {
        assert(line[j] == name[j]);
        assert(name.contains(name[j]));
    }
    lemma_first_index(line, '=', name.len() as int);
    assert(line.take(name.len() as int) =~= name);
    assert(line.skip(name.len() + 1int) =~= value);
    assert(lines.push(line).drop_last() =~= lines);
    assert(lines.push(line).last() == line);
    assert forall|j: int| 0 <= j < name.len() implies #[trigger] name[j] != '=' by {
        assert(name.contains(name[j]));
    }
    lemma_first_index(name, '=', name.len() as int);
    assert(lines.push(name).drop_last() =~= lines);
    reveal_strlit(":");
    assert(":"@ =~= seq![':']);
}

} // verus!
