use deckery::config::Config;
use deckery::session::{
    bus_address, copy_variables, find_server, startup_ms, BusAddress, Client, Environment, Server,
};
use deckery::windows::{
    active_window_event, active_window_pid, client_of_json, client_of_member, client_of_output,
    client_of_property, detect, focus_change, handle_event, hyprland_sockets, match_class, printed_text, read_pid, sway_class,
    window_activated, window_query, without_quotes, wm_class, CompositorKind, WindowQuery,
};

fn text(s: &str) -> Option<String> {
    Some(s.to_string())
}

fn for_class(class: &str) -> Vec<Config> {
    let mut c = Config::new_empty("module".to_string());
    c.module.match_window_class = Some(vec![class.to_string()]);
    vec![Config::new_empty("plain".to_string()), c]
}

fn window(class: &str) -> Client {
    Client::Class(class.to_string(), String::new(), None)
}

// ── Being told ────────────────────────────────────────────────────────────────

#[test]
fn kde_window_activated_stores_class_and_caption_in_client() {
    assert_eq!(
        window_activated("org.mozilla.firefox".to_string(), "Firefox".to_string(), 12345),
        Client::Class("org.mozilla.firefox".to_string(), "Firefox".to_string(), Some(12345)),
    );
}

#[test]
fn kde_window_activated_empty_string_resets_to_default() {
    assert_eq!(window_activated("".to_string(), "".to_string(), 0), Client::Default);
}

#[test]
fn kde_window_activated_stores_bpm_caption() {
    assert_eq!(
        window_activated("steam".to_string(), "Steam Big Picture".to_string(), 5678),
        Client::Class("steam".to_string(), "Steam Big Picture".to_string(), Some(5678)),
    );
}

#[test]
fn a_pid_that_is_not_positive_is_none() {
    for pid in [0, -1, i32::MIN] {
        assert_eq!(
            window_activated("a".to_string(), "b".to_string(), pid),
            Client::Class("a".to_string(), "b".to_string(), None)
        );
    }
}

#[test]
fn handle_event_ignores_non_activewindow_events() {
    assert_eq!(handle_event("openwindow>>abc,title,class"), None);
    assert_eq!(active_window_event("activewindowv2>>abc"), None);
}

#[test]
fn handle_event_parses_class_and_title() {
    assert_eq!(
        handle_event("activewindow>>org.mozilla.firefox,Firefox — makima"),
        Some(("org.mozilla.firefox".to_string(), "Firefox — makima".to_string()))
    );
}

#[test]
fn handle_event_empty_activewindow_resets_to_default() {
    let (class, title) = active_window_event("activewindow>>,\n").expect("a focus event");
    assert_eq!(focus_change(class, title, None), Client::Default);
}

#[test]
fn a_title_may_hold_commas_and_be_missing() {
    assert_eq!(
        active_window_event("activewindow>>a,b,c"),
        Some(("a".to_string(), "b,c".to_string()))
    );
    assert_eq!(active_window_event("activewindow>>a"), Some(("a".to_string(), String::new())));
}

#[test]
fn desktops_are_told_apart() {
    assert_eq!(detect("KDE"), CompositorKind::Kde);
    assert_eq!(detect("Hyprland"), CompositorKind::Hyprland);
    assert_eq!(detect("sway"), CompositorKind::Fallback);
    assert!(detect("KDE").is_event_driven());
    assert!(!detect("x11").is_event_driven());
    assert_eq!(detect("kde").name(), "fallback (polling)");
}

#[test]
fn hyprland_has_two_sockets() {
    let (questions, events) = hyprland_sockets("abc");
    assert_eq!(questions, "/tmp/hypr/abc/.socket.sock");
    assert_eq!(events, "/tmp/hypr/abc/.socket2.sock");
}

// ── Answers ───────────────────────────────────────────────────────────────────

#[test]
fn the_pid_is_read_from_json() {
    assert_eq!(active_window_pid("{\"class\": \"steam\", \"pid\": 4711}"), Some(4711));
    assert_eq!(active_window_pid("{\"class\": \"steam\"}"), None);
    assert_eq!(active_window_pid("{\"pid\": -1}"), None);
    assert_eq!(active_window_pid("4711"), None);
    assert_eq!(active_window_pid("no json"), None);
}

#[test]
fn a_written_pid_keeps_its_low_bits() {
    assert_eq!(read_pid(&text("4294967297")), Some(1));
    assert_eq!(read_pid(&text("null")), None);
    assert_eq!(read_pid(&None), None);
}

#[test]
fn the_class_is_read_from_json() {
    let modules = for_class("foot");
    assert_eq!(client_of_json("{\"app_id\": \"foot\"}", "app_id", &modules), window("foot"));
    assert_eq!(client_of_json("{\"app_id\": \"other\"}", "app_id", &modules), Client::Default);
    assert_eq!(client_of_json("foot", "app_id", &modules), Client::Default);
}

#[test]
fn a_class_without_a_module_is_no_window() {
    let modules = for_class("foot");
    assert_eq!(match_class("foot".to_string(), &modules), window("foot"));
    assert_eq!(match_class("bar".to_string(), &modules), Client::Default);
    assert_eq!(client_of_member(&text("\"foot\""), &modules), window("foot"));
    assert_eq!(client_of_member(&None, &modules), Client::Default);
    assert_eq!(client_of_output("  foot\n", &modules), window("foot"));
    assert_eq!(without_quotes("\"a\"b"), "ab");
}

#[test]
fn sway_prefers_the_identifier() {
    assert_eq!(sway_class(text("id"), text("class")), "id");
    assert_eq!(sway_class(None, text("class")), "class");
    assert_eq!(sway_class(None, None), "");
}

#[test]
fn the_class_is_the_second_part_of_the_property() {
    let modules = for_class("Firefox");
    assert_eq!(client_of_property(&b"Navigator\0Firefox\0".to_vec(), &modules), window("Firefox"));
    assert_eq!(client_of_property(&b"Navigator\0Firefox".to_vec(), &modules), window("Firefox"));
    assert_eq!(client_of_property(&b"Firefox".to_vec(), &modules), Client::Default);
    assert_eq!(client_of_property(&b"x\0\xff\xfe\0".to_vec(), &modules), Client::Default);
    assert_eq!(wm_class(&b"a\0b\0".to_vec()), Some(b"b".to_vec()));
    assert_eq!(wm_class(&b"ab".to_vec()), None);
}

#[test]
fn a_class_may_be_written_in_any_script() {
    let modules = for_class("写真");
    assert_eq!(
        client_of_property(&[b"x\0".to_vec(), "写真".as_bytes().to_vec()].concat(), &modules),
        window("写真")
    );
}

#[test]
fn every_server_is_asked_its_own_way() {
    let on = |server: &str, sudo: Option<String>, user: Option<String>| {
        window_query(&Environment {
            user,
            sudo_user: sudo,
            server: Server::Connected(server.to_string()),
        })
    };
    match on("Hyprland", None, None) {
        WindowQuery::Json(l, key) => {
            assert_eq!(key, "class");
            assert_eq!(l.program, "hyprctl");
            assert_eq!(l.arguments, vec!["activewindow", "-j"]);
        }
        other => panic!("{:?}", other),
    }
    match on("niri", None, None) {
        WindowQuery::Json(l, key) => {
            assert_eq!(key, "app_id");
            assert_eq!(l.arguments, vec!["msg", "-j", "focused-window"]);
        }
        other => panic!("{:?}", other),
    }
    match on("KDE", text("deck"), None) {
        WindowQuery::Plain(l) => {
            assert_eq!(l.program, "runuser");
            assert_eq!(
                l.arguments,
                vec!["deck", "-c", "kdotool getactivewindow getwindowclassname"]
            );
        }
        other => panic!("{:?}", other),
    }
    match on("KDE", None, text("deck")) {
        WindowQuery::Plain(l) => {
            assert_eq!(l.program, "sh");
            assert_eq!(
                l.arguments[1],
                "systemd-run --user --scope -M deck@ kdotool getactivewindow getwindowclassname"
            );
        }
        other => panic!("{:?}", other),
    }
    assert_eq!(on("KDE", None, None), WindowQuery::Nothing);
    assert_eq!(on("sway", None, None), WindowQuery::Sway);
    assert_eq!(on("x11", None, None), WindowQuery::X11);
    assert_eq!(on("mir", None, None), WindowQuery::Nothing);
}

// ── The session ───────────────────────────────────────────────────────────────

#[test]
fn the_server_follows_the_session() {
    let connected = |s: &str| Some(Server::Connected(s.to_string()));
    assert_eq!(find_server(&text("wayland"), &None, &text("KDE")), connected("KDE"));
    assert_eq!(find_server(&text("wayland"), &None, &text("GNOME")), Some(Server::Unsupported));
    assert_eq!(find_server(&text("wayland"), &None, &None), Some(Server::Unsupported));
    assert_eq!(find_server(&None, &text("wayland-0"), &text("niri")), connected("niri"));
    assert_eq!(find_server(&text("x11"), &None, &text("KDE")), connected("x11"));
    assert_eq!(find_server(&text("tty"), &None, &text("KDE")), Some(Server::Failed));
    assert_eq!(find_server(&None, &None, &text("KDE")), None);
}

#[test]
fn variables_of_the_user_are_added_and_the_path_is_extended() {
    let mut variables = deckery::keyed::KeyedList::new();
    variables.insert("PATH".to_string(), "/bin".to_string());
    variables.insert("LANG".to_string(), "C".to_string());
    copy_variables(&mut variables, "PATH=/opt/bin\nLANG=de\nEDITOR=vi -u=x\nnoise");
    let get = |name: &str| variables.get(&name.to_string()).map(|v| v.as_str());
    assert_eq!(get("PATH"), Some("/opt/bin:/bin"));
    assert_eq!(get("LANG"), Some("C"));
    assert_eq!(get("EDITOR"), Some("vi -u=x"));
    assert_eq!(variables.len(), 3);
}

#[test]
fn the_bus_address_is_made_up_only_where_needed() {
    assert_eq!(bus_address(true, "1000"), BusAddress::Known);
    assert_eq!(
        bus_address(false, "1000"),
        BusAddress::At("unix:path=/run/user/1000/bus".to_string())
    );
    assert_eq!(bus_address(false, "0"), BusAddress::Unknown);
}

#[test]
fn the_start_is_reported_in_milliseconds() {
    assert_eq!(startup_ms(Some(12_345)), 12);
    assert_eq!(startup_ms(None), 0);
}

#[test]
fn printed_bytes_are_text_where_they_are_utf8() {
    assert_eq!(printed_text("käse\n".as_bytes().to_vec()), text("käse\n"));
    assert_eq!(printed_text(vec![0x66, 0xff]), None);
    assert_eq!(printed_text(Vec::new()), text(""));
}
