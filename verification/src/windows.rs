//! The focused window: how each desktop tells of it, and how it is asked for
//! where it does not.

use crate::config::Config;
use crate::loops::Launch;
use crate::order::views;
use crate::session::{Client, Environment, Server};
use crate::settings::{law_numbers_are_read_as_written, read_u64, u64_of};
use crate::text::{
    chars_of, decimal, first_index, joined, joined3, lemma_first_index, listed, lists, part,
    same_text, split_at_first, starts, starts_with, text_in, trimmed, trimmed_end_text,
    trimmed_text, without_trailing,
};
use vstd::prelude::*;
use vstd::utf8::{decode_utf8, valid_utf8};

verus! {

// ── Desktops ─────────────────────────────────────────────────────────────────

/// Which desktop is running, as far as it tells of the focused window.
#[derive(Debug, Clone, Copy, PartialEq, Eq, Structural)]
pub enum CompositorKind {
    Kde,
    Hyprland,
    /// Any other: the window has to be asked for.
    Fallback,
}

impl CompositorKind {
    /// Whether the desktop tells of the focused window by itself.
    pub fn is_event_driven(&self) -> (r: bool)
        ensures
            r == (*self == CompositorKind::Kde || *self == CompositorKind::Hyprland),
    {
        match self {
            CompositorKind::Kde => true,
            CompositorKind::Hyprland => true,
            CompositorKind::Fallback => false,
        }
    }

    /// The name in messages.
    pub fn name(&self) -> (r: &'static str)
        ensures
            r@ == match *self {
                CompositorKind::Kde => "KDE/KWin"@,
                CompositorKind::Hyprland => "Hyprland"@,
                CompositorKind::Fallback => "fallback (polling)"@,
            },
    {
        match self {
            CompositorKind::Kde => "KDE/KWin",
            CompositorKind::Hyprland => "Hyprland",
            CompositorKind::Fallback => "fallback (polling)",
        }
    }
}

/// The desktop of a name.
pub fn detect(desktop: &str) -> (r: CompositorKind)
    ensures
        r == (if desktop@ == "KDE"@ {
            CompositorKind::Kde
        } else if desktop@ == "Hyprland"@ {
            CompositorKind::Hyprland
        } else {
            CompositorKind::Fallback
        }),
{
    if same_text(desktop, "KDE") {
        CompositorKind::Kde
    } else if same_text(desktop, "Hyprland") {
        CompositorKind::Hyprland
    } else {
        CompositorKind::Fallback
    }
}

// ── Being told ───────────────────────────────────────────────────────────────

/// The window that has the focus now: none for an empty class.
pub fn focus_change(class: String, title: String, pid: Option<u32>) -> (r: Client)
    ensures
        r == (if class@.len() == 0 {
            Client::Default
        } else {
            Client::Class(class, title, pid)
        }),
{
    proof {
        reveal_strlit("");
        if class@.len() == 0 {
            assert(class@ =~= ""@);
        }
    }
    if same_text(class.as_str(), "") {
        Client::Default
    } else {
        Client::Class(class, title, pid)
    }
}

/// The window that KWin's script tells of. A process number that is not
/// positive says nothing.
pub fn window_activated(class_name: String, caption: String, pid: i32) -> (r: Client)
    ensures
        r == (if class_name@.len() == 0 {
            Client::Default
        } else {
            Client::Class(
                class_name,
                caption,
                if pid > 0 {
                    Some(pid as u32)
                } else {
                    None
                },
            )
        }),
{
    let pid: Option<u32> = if pid > 0 {
        Some(pid as u32)
    } else {
        None
    };
    focus_change(class_name, caption, pid)
}

/// Class and title in one of Hyprland's events; none for other events. The
/// title may hold commas.
pub open spec fn hyprland_window(event: Seq<char>) -> Option<(Seq<char>, Seq<char>)> {
    let prefix = "activewindow>>"@;
    if starts(event, prefix) {
        let rest = event.skip(prefix.len() as int);
        let i = first_index(rest, ',');
        if i < rest.len() {
            Some((rest.take(i), rest.skip(i + 1)))
        } else {
            Some((rest, Seq::empty()))
        }
    } else {
        None
    }
}

/// Class and title in one of Hyprland's events.
pub fn handle_event(event: &str) -> (r: Option<(String, String)>)
    ensures
        match r {
            Some((class, title)) => hyprland_window(event@) == Some((class@, title@)),
            None => hyprland_window(event@) is None,
        },
{
    if !starts_with(event, "activewindow>>") {
        return None;
    }
    let n: usize = chars_of(event).len();
    let k: usize = chars_of("activewindow>>").len();
    let rest: String = part(event, k, n);
    assert(rest@ =~= event@.skip("activewindow>>"@.len() as int));
    match split_at_first(rest.as_str(), ',') {
        Some((class, title)) => Some((class, title)),
        None => Some((rest, String::new())),
    }
}

/// Class and title in a line of Hyprland's events, which may have blanks at its
/// end.
pub fn active_window_event(line: &str) -> (r: Option<(String, String)>)
    ensures
        match r {
            Some((class, title)) => hyprland_window(without_trailing(line@)) == Some(
                (class@, title@),
            ),
            None => hyprland_window(without_trailing(line@)) is None,
        },
{
    handle_event(trimmed_end_text(line).as_str())
}

/// The paths of Hyprland's sockets, for questions and for events.
pub fn hyprland_sockets(signature: &str) -> (r: (String, String))
    ensures
        r.0@ == "/tmp/hypr/"@ + signature@ + "/.socket.sock"@,
        r.1@ == "/tmp/hypr/"@ + signature@ + "/.socket2.sock"@,
{
    (
        joined3("/tmp/hypr/", signature, "/.socket.sock"),
        joined3("/tmp/hypr/", signature, "/.socket2.sock"),
    )
}

// ── JSON answers ─────────────────────────────────────────────────────────────

/// What `serde_json` makes of a text and writes for the member of a name: none
/// where the text is no JSON.
pub uninterp spec fn json_member_text(text: Seq<char>, key: Seq<char>) -> Option<Seq<char>>;

/// Parses a text with `serde_json::from_str`, takes the member of a name from
/// the value, and writes it with the `Display` of `serde_json::Value`. The
/// result is named, not described; a member that is not there is written as
/// `null`.
#[verifier::external_body]
fn json_member(text: &str, key: &str) -> (r: Option<String>)
    ensures
        text_in(r) == json_member_text(text@, key@),
{
    serde_json::from_str::<serde_json::Value>(text).ok().map(|v| v[key].to_string())
}

/// A text without its quotation marks.
pub open spec fn unquoted(s: Seq<char>) -> Seq<char>
    decreases s.len(),
{
    if s.len() == 0 {
        s
    } else if s.last() == '"' {
        unquoted(s.drop_last())
    } else {
        unquoted(s.drop_last()).push(s.last())
    }
}

/// A text without its quotation marks.
pub fn without_quotes(s: &str) -> (r: String)
    ensures
        r@ == unquoted(s@),
{
    let x: Vec<char> = chars_of(s);
    let mut r: String = String::new();
    let mut i: usize = 0;
    assert(s@.take(0) =~= Seq::<char>::empty());
    while i < x.len()
        invariant
            x@ == s@,
            i <= x@.len(),
            r@ == unquoted(s@.take(i as int)),
        decreases x@.len() - i,
    {
        if x[i] != '"' {
            let one: String = part(s, i, i + 1);
            let ghost before = r@;
            r = joined(r.as_str(), one.as_str());
            assert(r@ =~= before.push(s@[i as int]));
        }
        i = i + 1;
        proof {
            assert(s@.take(i as int).drop_last() =~= s@.take(i - 1));
            assert(s@.take(i as int).last() == s@[i - 1]);
        }
    }
    assert(s@.take(i as int) =~= s@);
    r
}

/// The process number in a JSON answer, given how its member is written.
pub open spec fn pid_written(member: Option<Seq<char>>) -> Option<u32> {
    match member {
        Some(m) => match u64_of(m) {
            Some(n) => Some(n as u32),
            None => None,
        },
        None => None,
    }
}

/// The process number in a JSON answer, given how its member is written. Only
/// the low 32 bits count.
pub fn read_pid(member: &Option<String>) -> (r: Option<u32>)
    ensures
        r == pid_written(text_in(*member)),
{
    match member {
        Some(m) => match read_u64(m.as_str()) {
            Some(n) => Some(
                #[verifier::truncate]
                (n as u32),
            ),
            None => None,
        },
        None => None,
    }
}

/// The process number of the window in Hyprland's answer.
pub fn active_window_pid(response: &str) -> (r: Option<u32>)
    ensures
        r == pid_written(json_member_text(response@, "pid"@)),
{
    read_pid(&json_member(response, "pid"))
}

// ── Asking ───────────────────────────────────────────────────────────────────

/// Whether a module names a window class.
pub open spec fn class_known(class: Seq<char>, modules: Seq<Config>) -> bool {
    exists|i: int|
        0 <= i < modules.len() && names_class(#[trigger] modules[i], class)
}

/// Whether one module names a window class.
pub open spec fn names_class(c: Config, class: Seq<char>) -> bool {
    c.module.match_window_class matches Some(classes) && listed(classes@, class)
}

/// Whether `client` is the window of a class as far as anything is configured
/// for it.
pub open spec fn is_match(client: Client, class: Seq<char>, modules: Seq<Config>) -> bool {
    if class_known(class, modules) {
        client matches Client::Class(c, title, pid) && c@ == class && title@.len() == 0
            && pid is None
    } else {
        client is Default
    }
}

/// The window of a class, as far as anything is configured for it.
pub fn match_class(class: String, modules: &Vec<Config>) -> (r: Client)
    ensures
        is_match(r, class@, modules@),
{
    let mut i: usize = 0;
    while i < modules.len()
        invariant
            i <= modules@.len(),
            forall|j: int| 0 <= j < i ==> !names_class(#[trigger] modules@[j], class@),
        decreases modules@.len() - i,
    {
        if let Some(classes) = &modules[i].module.match_window_class {
            if lists(classes, class.as_str()) {
                assert(names_class(modules@[i as int], class@));
                return Client::Class(class, String::new(), None);
            }
        }
        i = i + 1;
    }
    Client::Default
}

/// How the focused window is asked for.
#[derive(Debug, Clone, PartialEq, Eq)]
pub enum WindowQuery {
    /// A program prints JSON; the class is the member of this name.
    Json(Launch, &'static str),
    /// A program prints the class.
    Plain(Launch),
    /// Sway is asked over its socket.
    Sway,
    /// The X server is asked.
    X11,
    /// It cannot be asked for.
    Nothing,
}

/// Whether `l` runs a program with arguments.
pub open spec fn runs(l: Launch, program: Seq<char>, arguments: Seq<Seq<char>>) -> bool {
    l.program@ == program && views(l.arguments@) == arguments && !l.detached
}

/// Whether `q` is how the focused window is asked for.
pub open spec fn is_query(q: WindowQuery, e: Environment) -> bool {
    match e.server {
        Server::Connected(server) => if server@ == "Hyprland"@ {
            q matches WindowQuery::Json(l, key) && key@ == "class"@ && runs(
                l,
                "hyprctl"@,
                seq!["activewindow"@, "-j"@],
            )
        } else if server@ == "sway"@ {
            q is Sway
        } else if server@ == "niri"@ {
            q matches WindowQuery::Json(l, key) && key@ == "app_id"@ && runs(
                l,
                "niri"@,
                seq!["msg"@, "-j"@, "focused-window"@],
            )
        } else if server@ == "KDE"@ {
            match e.sudo_user {
                Some(u) => q matches WindowQuery::Plain(l) && runs(
                    l,
                    "runuser"@,
                    seq![u@, "-c"@, "kdotool getactivewindow getwindowclassname"@],
                ),
                None => match e.user {
                    Some(u) => q matches WindowQuery::Plain(l) && runs(
                        l,
                        "sh"@,
                        seq![
                            "-c"@,
                            "systemd-run --user --scope -M "@ + u@
                                + "@ kdotool getactivewindow getwindowclassname"@,
                        ],
                    ),
                    None => q is Nothing,
                },
            }
        } else if server@ == "x11"@ {
            q is X11
        } else {
            q is Nothing
        },
        Server::Unsupported => q is Nothing,
        Server::Failed => q is Nothing,
    }
}

fn run2(program: &str, a: &str, b: &str) -> (r: Launch)
    ensures
        runs(r, program@, seq![a@, b@]),
{
    let mut arguments: Vec<String> = Vec::new();
    arguments.push(a.to_owned());
    arguments.push(b.to_owned());
    assert(views(arguments@) =~= seq![a@, b@]);
    Launch { program: program.to_owned(), arguments, detached: false }
}

fn run3(program: &str, a: &str, b: &str, c: &str) -> (r: Launch)
    ensures
        runs(r, program@, seq![a@, b@, c@]),
{
    let mut arguments: Vec<String> = Vec::new();
    arguments.push(a.to_owned());
    arguments.push(b.to_owned());
    arguments.push(c.to_owned());
    assert(views(arguments@) =~= seq![a@, b@, c@]);
    Launch { program: program.to_owned(), arguments, detached: false }
}

/// How the focused window is asked for.
pub fn window_query(environment: &Environment) -> (r: WindowQuery)
    ensures
        is_query(r, *environment),
{
    match &environment.server {
        Server::Connected(server) => {
            if same_text(server.as_str(), "Hyprland") {
                WindowQuery::Json(run2("hyprctl", "activewindow", "-j"), "class")
            } else if same_text(server.as_str(), "sway") {
                WindowQuery::Sway
            } else if same_text(server.as_str(), "niri") {
                WindowQuery::Json(run3("niri", "msg", "-j", "focused-window"), "app_id")
            } else if same_text(server.as_str(), "KDE") {
                match &environment.sudo_user {
                    Some(u) => WindowQuery::Plain(
                        run3(
                            "runuser",
                            u.as_str(),
                            "-c",
                            "kdotool getactivewindow getwindowclassname",
                        ),
                    ),
                    None => match &environment.user {
                        Some(u) => WindowQuery::Plain(
                            run2(
                                "sh",
                                "-c",
                                joined3(
                                    "systemd-run --user --scope -M ",
                                    u.as_str(),
                                    "@ kdotool getactivewindow getwindowclassname",
                                ).as_str(),
                            ),
                        ),
                        None => WindowQuery::Nothing,
                    },
                }
            } else if same_text(server.as_str(), "x11") {
                WindowQuery::X11
            } else {
                WindowQuery::Nothing
            }
        },
        Server::Unsupported => WindowQuery::Nothing,
        Server::Failed => WindowQuery::Nothing,
    }
}

/// Whether `client` is the window in a JSON answer, given how its member is
/// written.
pub open spec fn is_json_client(
    client: Client,
    member: Option<Seq<char>>,
    modules: Seq<Config>,
) -> bool {
    match member {
        Some(m) => is_match(client, unquoted(m), modules),
        None => client is Default,
    }
}

/// The window in a JSON answer, given how its member is written.
pub fn client_of_member(member: &Option<String>, modules: &Vec<Config>) -> (r: Client)
    ensures
        is_json_client(r, text_in(*member), modules@),
{
    match member {
        Some(m) => match_class(without_quotes(m.as_str()), modules),
        None => Client::Default,
    }
}

/// The window in a program's JSON answer.
pub fn client_of_json(output: &str, key: &str, modules: &Vec<Config>) -> (r: Client)
    ensures
        is_json_client(r, json_member_text(output@, key@), modules@),
{
    client_of_member(&json_member(output, key), modules)
}

/// The window whose class a program printed.
pub fn client_of_output(output: &str, modules: &Vec<Config>) -> (r: Client)
    ensures
        is_match(r, trimmed(output@), modules@),
{
    match_class(trimmed_text(output), modules)
}

/// The class of a window in Sway's tree: its identifier, or the class of its
/// properties, or nothing.
pub fn sway_class(app_id: Option<String>, window_class: Option<String>) -> (r: String)
    ensures
        r@ == match app_id {
            Some(id) => id@,
            None => match window_class {
                Some(c) => c@,
                None => Seq::<char>::empty(),
            },
        },
{
    match app_id {
        Some(id) => id,
        None => match window_class {
            Some(c) => c,
            None => String::new(),
        },
    }
}

// ── X11 ──────────────────────────────────────────────────────────────────────

/// Where the first zero stands; the length where there is none.
pub open spec fn first_zero(bytes: Seq<u8>) -> int
    decreases bytes.len(),
{
    if bytes.len() == 0 || bytes[0] == 0 {
        0
    } else {
        1 + first_zero(bytes.drop_first())
    }
}

/// The class in a `WM_CLASS` property: what follows the first zero, without a
/// zero at the end.
pub open spec fn class_bytes(bytes: Seq<u8>) -> Option<Seq<u8>> {
    let i = first_zero(bytes);
    if i < bytes.len() {
        let rest = bytes.skip(i + 1);
        if rest.len() > 0 && rest.last() == 0 {
            Some(rest.drop_last())
        } else {
            Some(rest)
        }
    } else {
        None
    }
}

/// The class in a `WM_CLASS` property.
pub fn wm_class(bytes: &Vec<u8>) -> (r: Option<Vec<u8>>)
    ensures
        match r {
            Some(v) => class_bytes(bytes@) == Some(v@),
            None => class_bytes(bytes@) is None,
        },
{
    let mut i: usize = 0;
    assert(bytes@.skip(0) =~= bytes@);
    while i < bytes.len() && bytes[i] != 0
        invariant
            i <= bytes@.len(),
            first_zero(bytes@) == i + first_zero(bytes@.skip(i as int)),
        decreases bytes@.len() - i,
    {
        proof {
            assert(bytes@.skip(i as int)[0] == bytes@[i as int]);
            assert(bytes@.skip(i as int).drop_first() =~= bytes@.skip(i + 1));
        }
        i = i + 1;
    }
    if i == bytes.len() {
        return None;
    }
    assert(bytes@.skip(i as int)[0] == bytes@[i as int]);
    let from: usize = i + 1;
    let ghost rest = bytes@.skip(from as int);
    let to: usize = if bytes.len() > from && bytes[bytes.len() - 1] == 0 {
        bytes.len() - 1
    } else {
        bytes.len()
    };
    let mut r: Vec<u8> = Vec::new();
    let mut k: usize = from;
    while k < to
        invariant
            from <= k <= to <= bytes@.len(),
            r@ == bytes@.subrange(from as int, k as int),
        decreases to - k,
    {
        r.push(bytes[k]);
        k = k + 1;
        assert(bytes@.subrange(from as int, k as int) =~= bytes@.subrange(
            from as int,
            k - 1,
        ).push(bytes@[k - 1]));
    }
    proof {
        if rest.len() > 0 {
            assert(rest.last() == bytes@[bytes@.len() - 1]);
        }
        if to < bytes@.len() {
            assert(r@ =~= rest.drop_last());
        } else {
            assert(r@ =~= rest);
        }
    }
    Some(r)
}

/// Calls `String::from_utf8`, which takes exactly the valid UTF-8 sequences and
/// gives the text that they encode.
#[verifier::external_body]
fn text_of_bytes(bytes: Vec<u8>) -> (r: Option<String>)
    ensures
        r is Some <==> valid_utf8(bytes@),
        r matches Some(s) ==> s@ == decode_utf8(bytes@),
{
    String::from_utf8(bytes).ok()
}

/// What a program printed. None where it is no text.
pub fn printed_text(output: Vec<u8>) -> (r: Option<String>)
    ensures
        r is Some <==> valid_utf8(output@),
        r matches Some(s) ==> s@ == decode_utf8(output@),
{
    text_of_bytes(output)
}

/// The window whose `WM_CLASS` property the X server gave.
pub fn client_of_property(bytes: &Vec<u8>, modules: &Vec<Config>) -> (r: Client)
    ensures
        match class_bytes(bytes@) {
            Some(b) => if valid_utf8(b) {
                is_match(r, decode_utf8(b), modules@)
            } else {
                r is Default
            },
            None => r is Default,
        },
{
    match wm_class(bytes) {
        Some(b) => match text_of_bytes(b) {
            Some(class) => match_class(class, modules),
            None => Client::Default,
        },
        None => Client::Default,
    }
}

// ── What windows are told by ─────────────────────────────────────────────────

/// An event tells of a window by its class, up to the first comma, and its
/// title behind that. Without a comma there is no title, and without the word
/// in front there is no window.
pub proof fn law_hyprland_tells_class_and_title(class: Seq<char>, title: Seq<char>)
    requires
        !class.contains(','),
    ensures
        hyprland_window("activewindow>>"@ + class + seq![','] + title) == Some((class, title)),
        hyprland_window("activewindow>>"@ + class) == Some((class, Seq::<char>::empty())),
        forall|event: Seq<char>|
            !starts(event, "activewindow>>"@) ==> #[trigger] hyprland_window(event) is None,
{
    let word = "activewindow>>"@;
    let n = word.len() as int;
    let long = word + class + seq![','] + title;
    let short = word + class;
    let k = class.len() as int;
    assert(long.take(n) =~= word);
    assert(short.take(n) =~= word);
    let rest = long.skip(n);
    assert(rest =~= class + seq![','] + title);
    assert(short.skip(n) =~= class);
    assert forall|j: int| 0 <= j < k implies #[trigger] class[j] != ',' by {
        assert(class.contains(class[j]));
    }
    assert forall|j: int| 0 <= j < k implies #[trigger] rest[j] != ',' by {
        assert(rest[j] == class[j]);
    }
    lemma_first_index(rest, ',', k);
    lemma_first_index(class, ',', k);
    assert(rest.take(k) =~= class);
    assert(rest.skip(k + 1) =~= title);
}

/// Quotation marks go and everything else stays, in its order.
pub proof fn law_only_quotes_are_taken(a: Seq<char>, b: Seq<char>)
    ensures
        unquoted(a + b) == unquoted(a) + unquoted(b),
        !a.contains('"') ==> unquoted(a) == a,
        unquoted(seq!['"']) == Seq::<char>::empty(),
    decreases a.len() + b.len(),
{
    if b.len() > 0 {
        law_only_quotes_are_taken(a, b.drop_last());
        assert((a + b).drop_last() =~= a + b.drop_last());
        assert((a + b).last() == b.last());
        assert(unquoted(a + b) =~= unquoted(a) + unquoted(b));
    } else {
        assert(a + b =~= a);
        assert(unquoted(a) + unquoted(b) =~= unquoted(a));
    }
    if !a.contains('"') && a.len() > 0 {
        let init = a.drop_last();
        assert(a.contains(a.last()));
        if init.contains('"') {
            let i = choose|i: int| 0 <= i < init.len() && init[i] == '"';
            assert(a[i] == '"');
        }
        law_only_quotes_are_taken(init, Seq::empty());
        assert(init.push(a.last()) =~= a);
    }
    let one = seq!['"'];
    assert(one.drop_last() =~= Seq::<char>::empty());
    assert(unquoted(one.drop_last()) == one.drop_last());
}

/// A process number is read as it is written; what is no number is none.
pub proof fn law_process_numbers_are_read_as_written(n: u32, other: Seq<char>)
    ensures
        pid_written(Some(decimal(n as nat))) == Some(n),
        u64_of(other) is None ==> pid_written(Some(other)) is None,
        pid_written(None) is None,
{
    law_numbers_are_read_as_written(n as nat);
}

/// A window is told by its class alone where a module names that class, and is
/// none where no module does.
pub proof fn law_only_named_classes_are_told(client: Client, class: Seq<char>, modules: Seq<Config>)
    ensures
        (exists|i: int, k: int|
            #![trigger modules[i].module.match_window_class->0@[k]]
            0 <= i < modules.len() && modules[i].module.match_window_class is Some && 0 <= k
                < modules[i].module.match_window_class->0@.len()
                && modules[i].module.match_window_class->0@[k]@ == class) ==> (is_match(
            client,
            class,
            modules,
        ) <==> (client matches Client::Class(c, title, pid) && c@ == class && title@
            == Seq::<char>::empty() && pid is None)),
        (forall|i: int, k: int|
            #![trigger modules[i].module.match_window_class->0@[k]]
            0 <= i < modules.len() && modules[i].module.match_window_class is Some && 0 <= k
                < modules[i].module.match_window_class->0@.len()
                ==> modules[i].module.match_window_class->0@[k]@ != class) ==> (is_match(
            client,
            class,
            modules,
        ) <==> client == Client::Default),
{
    if exists|i: int, k: int|
        #![trigger modules[i].module.match_window_class->0@[k]]
        0 <= i < modules.len() && modules[i].module.match_window_class is Some && 0 <= k
            < modules[i].module.match_window_class->0@.len()
            && modules[i].module.match_window_class->0@[k]@ == class {
        let (i, k) = choose|i: int, k: int|
            #![trigger modules[i].module.match_window_class->0@[k]]
            0 <= i < modules.len() && modules[i].module.match_window_class is Some && 0 <= k
                < modules[i].module.match_window_class->0@.len()
                && modules[i].module.match_window_class->0@[k]@ == class;
        assert(listed(modules[i].module.match_window_class->0@, class));
        assert(names_class(modules[i], class));
        assert(class_known(class, modules));
        if let Client::Class(_, title, _) = client {
            assert(title@.len() == 0 <==> title@ =~= Seq::<char>::empty());
        }
    } else {
        if class_known(class, modules) {
            let i = choose|i: int|
                0 <= i < modules.len() && names_class(#[trigger] modules[i], class);
            let l = modules[i].module.match_window_class->0@;
            let k = choose|k: int| 0 <= k < l.len() && (#[trigger] l[k])@ == class;
            assert(modules[i].module.match_window_class->0@[k]@ == class);
        }
    }
}

/// Every desktop is asked in its own way: Hyprland and niri by programs that
/// print JSON, sway over its socket, the X server directly, and KDE by a program
/// that is run as the user.
pub proof fn law_desktops_are_asked_in_their_own_way(
    q: WindowQuery,
    e: Environment,
    server: String,
)
    requires
        e.server == Server::Connected(server),
        is_query(q, e),
    ensures
        server@ == "Hyprland"@ ==> (q matches WindowQuery::Json(l, key) && key@ == "class"@
            && l.program@ == "hyprctl"@ && l.arguments@.len() == 2 && l.arguments@[0]@
            == "activewindow"@ && l.arguments@[1]@ == "-j"@),
        server@ == "niri"@ ==> (q matches WindowQuery::Json(l, key) && key@ == "app_id"@
            && l.program@ == "niri"@ && l.arguments@.len() == 3 && l.arguments@[0]@ == "msg"@
            && l.arguments@[1]@ == "-j"@ && l.arguments@[2]@ == "focused-window"@),
        server@ == "sway"@ ==> q == WindowQuery::Sway,
        server@ == "x11"@ ==> q == WindowQuery::X11,
        server@ == "KDE"@ && e.sudo_user is Some ==> (q matches WindowQuery::Plain(l)
            && l.program@ == "runuser"@ && l.arguments@.len() == 3 && l.arguments@[0]@
            == e.sudo_user->0@ && l.arguments@[1]@ == "-c"@ && l.arguments@[2]@
            == "kdotool getactivewindow getwindowclassname"@),
        server@ == "KDE"@ && e.sudo_user is None && e.user is Some ==> (
        q matches WindowQuery::Plain(l) && l.program@ == "sh"@ && l.arguments@.len() == 2
            && l.arguments@[0]@ == "-c"@ && l.arguments@[1]@ == "systemd-run --user --scope -M "@
            + e.user->0@ + "@ kdotool getactivewindow getwindowclassname"@),
        server@ == "KDE"@ && e.sudo_user is None && e.user is None ==> q == WindowQuery::Nothing,
        server@ != "Hyprland"@ && server@ != "niri"@ && server@ != "sway"@ && server@ != "x11"@
            && server@ != "KDE"@ ==> q == WindowQuery::Nothing,
{
    reveal_strlit("Hyprland");
    reveal_strlit("niri");
    reveal_strlit("sway");
    reveal_strlit("x11");
    reveal_strlit("KDE");
    assert("niri"@[0] != "sway"@[0]);
    assert("x11"@[0] != "KDE"@[0]);
    match q {
        WindowQuery::Json(l, _) | WindowQuery::Plain(l) => {
            assert(views(l.arguments@).len() == l.arguments@.len());
            assert forall|i: int| 0 <= i < l.arguments@.len() implies views(l.arguments@)[i]
                == #[trigger] l.arguments@[i]@ by {}
        },
        _ => {},
    }
}

/// The X server gives the instance and the class with a zero behind each; the
/// class is what is told. The last zero may be missing; without the first one
/// there is no class.
pub proof fn law_class_stands_behind_the_instance(instance: Seq<u8>, class: Seq<u8>)
    requires
        !instance.contains(0),
    ensures
        class_bytes(instance + seq![0u8] + class + seq![0u8]) == Some(class),
        class.len() == 0 || class.last() != 0 ==> class_bytes(instance + seq![0u8] + class)
            == Some(class),
        class_bytes(instance) is None,
{
    let all = instance + seq![0u8] + class + seq![0u8];
    let most = instance + seq![0u8] + class;
    let n = instance.len() as int;
    lemma_first_zero(instance, class + seq![0u8]);
    lemma_first_zero(instance, class);
    lemma_first_zero(instance, Seq::empty());
    assert(instance + seq![0u8] + (class + seq![0u8]) =~= all);
    assert(all.skip(n + 1) =~= class + seq![0u8]);
    assert((class + seq![0u8]).drop_last() =~= class);
    assert(most.skip(n + 1) =~= class);
}

proof fn lemma_first_zero(instance: Seq<u8>, rest: Seq<u8>)
    requires
        !instance.contains(0),
    ensures
        first_zero(instance + seq![0u8] + rest) == instance.len(),
        first_zero(instance) == instance.len(),
    decreases instance.len(),
{
    let all = instance + seq![0u8] + rest;
    if instance.len() > 0 {
        assert(instance.contains(instance[0]));
        let less = instance.drop_first();
        if less.contains(0) {
            let i = choose|i: int| 0 <= i < less.len() && less[i] == 0;
            assert(instance[i + 1] == 0);
        }
        lemma_first_zero(less, rest);
        assert(all.drop_first() =~= less + seq![0u8] + rest);
    }
}

} // verus!
