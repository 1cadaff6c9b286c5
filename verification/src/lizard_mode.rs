//! Lizard mode: the controller's built-in mouse and keyboard emulation, and the
//! reports that keep it quiet.

use crate::config::Config;
use crate::haptics::{high, high_byte, low, low_byte};
use crate::order::{sorted, sorts, views};
use crate::text::{
    contains_text, joined, lowercase, lowercase_text, occurs, same_text, starts, trimmed,
    trimmed_text,
};
use vstd::prelude::*;

verus! {

/// The report that clears all digital mappings.
pub const ID_CLEAR_DIGITAL_MAPPINGS: u8 = 0x81;

/// The report that sets controller settings.
pub const ID_SET_SETTINGS_VALUES: u8 = 0x87;

/// The setting for the mode of the left trackpad.
pub const SETTING_LEFT_TRACKPAD_MODE: u8 = 7;

/// The setting for the mode of the right trackpad.
pub const SETTING_RIGHT_TRACKPAD_MODE: u8 = 8;

/// The setting for the absolute mouse.
pub const SETTING_SMOOTH_ABSOLUTE_MOUSE: u8 = 24;

/// The setting for the click pressure of the left trackpad.
pub const SETTING_LEFT_TRACKPAD_CLICK_PRESSURE: u8 = 52;

/// The setting for the click pressure of the right trackpad.
pub const SETTING_RIGHT_TRACKPAD_CLICK_PRESSURE: u8 = 53;

/// The trackpad mode without any emulation.
pub const TRACKPAD_NONE: u16 = 7;

/// Seconds between two heartbeats. The controller falls back after about
/// eight seconds without one.
pub const HEARTBEAT_INTERVAL_SECS: u64 = 4;

/// Whether `buf` is the report that sets `settings`: the number, the length of
/// the payload, three bytes for each setting, and zeros.
pub open spec fn is_settings_report(buf: Seq<u8>, settings: Seq<(u8, u16)>) -> bool {
    &&& buf.len() == 64
    &&& buf[0] == ID_SET_SETTINGS_VALUES
    &&& buf[1] == 3 * settings.len()
    &&& forall|i: int|
        #![trigger settings[i]]
        0 <= i < settings.len() ==> {
            &&& buf[2 + 3 * i] == settings[i].0
            &&& buf[3 + 3 * i] == low_byte(settings[i].1)
            &&& buf[4 + 3 * i] == high_byte(settings[i].1)
        }
    &&& forall|j: int| 2 + 3 * settings.len() <= j < 64 ==> #[trigger] buf[j] == 0
}

/// The report that sets `settings`. Twenty of them fit.
pub fn make_settings_report(settings: &[(u8, u16)]) -> (buf: [u8; 64])
    requires
        settings@.len() <= 20,
    ensures
        is_settings_report(buf@, settings@),
{
    let mut buf: [u8; 64] = [0u8; 64];
    buf[0] = ID_SET_SETTINGS_VALUES;
    buf[1] = (settings.len() * 3) as u8;
    let mut i: usize = 0;
    while i < settings.len()
        invariant
            settings@.len() <= 20,
            i <= settings@.len(),
            buf@[0] == ID_SET_SETTINGS_VALUES,
            buf@[1] == 3 * settings@.len(),
            forall|k: int|
                #![trigger settings@[k]]
                0 <= k < i ==> {
                    &&& buf@[2 + 3 * k] == settings@[k].0
                    &&& buf@[3 + 3 * k] == low_byte(settings@[k].1)
                    &&& buf@[4 + 3 * k] == high_byte(settings@[k].1)
                },
            forall|j: int| 2 + 3 * i <= j < 64 ==> #[trigger] buf@[j] == 0,
        decreases settings@.len() - i,
    {
        let off: usize = 2 + i * 3;
        let (index, value): (u8, u16) = settings[i];
        buf[off] = index;
        buf[off + 1] = low(value);
        buf[off + 2] = high(value);
        i = i + 1;
    }
    buf
}

/// The settings that switch the emulation off.
pub open spec fn disable_settings() -> Seq<(u8, u16)> {
    seq![
        (SETTING_LEFT_TRACKPAD_MODE, TRACKPAD_NONE),
        (SETTING_RIGHT_TRACKPAD_MODE, TRACKPAD_NONE),
        (SETTING_SMOOTH_ABSOLUTE_MOUSE, 0u16),
    ]
}

/// The report that switches the emulation off. Click pressure has a report of
/// its own.
pub fn make_disable_settings_report() -> (buf: [u8; 64])
    ensures
        is_settings_report(buf@, disable_settings()),
{
    let settings: [(u8, u16); 3] = [
        (SETTING_LEFT_TRACKPAD_MODE, TRACKPAD_NONE),
        (SETTING_RIGHT_TRACKPAD_MODE, TRACKPAD_NONE),
        (SETTING_SMOOTH_ABSOLUTE_MOUSE, 0u16),
    ];
    assert(settings@ =~= disable_settings());
    make_settings_report(&settings)
}

/// The settings that switch the emulation off and make the pads hardest to
/// click, for use without a trackpad handler.
pub open spec fn standalone_settings() -> Seq<(u8, u16)> {
    seq![
        (SETTING_LEFT_TRACKPAD_MODE, TRACKPAD_NONE),
        (SETTING_RIGHT_TRACKPAD_MODE, TRACKPAD_NONE),
        (SETTING_SMOOTH_ABSOLUTE_MOUSE, 0u16),
        (SETTING_LEFT_TRACKPAD_CLICK_PRESSURE, 0xFFFFu16),
        (SETTING_RIGHT_TRACKPAD_CLICK_PRESSURE, 0xFFFFu16),
    ]
}

/// The report that switches the emulation off and makes the pads hardest to
/// click.
pub fn make_standalone_settings_report() -> (buf: [u8; 64])
    ensures
        is_settings_report(buf@, standalone_settings()),
{
    let settings: [(u8, u16); 5] = [
        (SETTING_LEFT_TRACKPAD_MODE, TRACKPAD_NONE),
        (SETTING_RIGHT_TRACKPAD_MODE, TRACKPAD_NONE),
        (SETTING_SMOOTH_ABSOLUTE_MOUSE, 0u16),
        (SETTING_LEFT_TRACKPAD_CLICK_PRESSURE, 0xFFFFu16),
        (SETTING_RIGHT_TRACKPAD_CLICK_PRESSURE, 0xFFFFu16),
    ];
    assert(settings@ =~= standalone_settings());
    make_settings_report(&settings)
}

/// The settings for the click pressure of both pads.
pub open spec fn pressure_settings(left: u16, right: u16) -> Seq<(u8, u16)> {
    seq![
        (SETTING_LEFT_TRACKPAD_CLICK_PRESSURE, left),
        (SETTING_RIGHT_TRACKPAD_CLICK_PRESSURE, right),
    ]
}

/// The report that sets the click pressure of both pads.
pub fn make_click_pressure_report(left: u16, right: u16) -> (buf: [u8; 64])
    ensures
        is_settings_report(buf@, pressure_settings(left, right)),
{
    let settings: [(u8, u16); 2] = [
        (SETTING_LEFT_TRACKPAD_CLICK_PRESSURE, left),
        (SETTING_RIGHT_TRACKPAD_CLICK_PRESSURE, right),
    ];
    assert(settings@ =~= pressure_settings(left, right));
    make_settings_report(&settings)
}

/// The settings of a heartbeat.
pub open spec fn heartbeat_settings() -> Seq<(u8, u16)> {
    seq![(SETTING_RIGHT_TRACKPAD_MODE, TRACKPAD_NONE)]
}

/// The report of a heartbeat.
pub fn make_heartbeat_settings_report() -> (buf: [u8; 64])
    ensures
        is_settings_report(buf@, heartbeat_settings()),
{
    let settings: [(u8, u16); 1] = [(SETTING_RIGHT_TRACKPAD_MODE, TRACKPAD_NONE)];
    assert(settings@ =~= heartbeat_settings());
    make_settings_report(&settings)
}

/// Whether `buf` is the report that clears all digital mappings.
pub open spec fn is_clear_report(buf: Seq<u8>) -> bool {
    &&& buf.len() == 64
    &&& buf[0] == ID_CLEAR_DIGITAL_MAPPINGS
    &&& forall|i: int| 1 <= i < 64 ==> #[trigger] buf[i] == 0
}

/// The report that clears all digital mappings.
pub fn make_clear_mappings_report() -> (buf: [u8; 64])
    ensures
        is_clear_report(buf@),
{
    let mut buf: [u8; 64] = [0u8; 64];
    buf[0] = ID_CLEAR_DIGITAL_MAPPINGS;
    buf
}

/// What of the emulation is kept quiet.
#[derive(Debug, Clone, Copy, PartialEq, Eq, Structural)]
pub struct LizardModeSuppression {
    /// Keyboard keys and mouse buttons.
    pub suppress_buttons: bool,
    /// Trackpad mouse and scrolling.
    pub suppress_mouse: bool,
}

/// What a setting asks for, once it is in lower case and without blanks around
/// it: nothing where it says so, or where it names neither part.
pub open spec fn suppression_of_word(v: Seq<char>) -> Option<LizardModeSuppression> {
    if v == "false"@ || v == "off"@ || v == "none"@ || v == "0"@ {
        None
    } else if !occurs(v, "buttons"@) && !occurs(v, "mouse"@) {
        None
    } else {
        Some(
            LizardModeSuppression {
                suppress_buttons: occurs(v, "buttons"@),
                suppress_mouse: occurs(v, "mouse"@),
            },
        )
    }
}

/// What a setting asks for.
pub open spec fn suppression_of(value: Seq<char>) -> Option<LizardModeSuppression> {
    suppression_of_word(lowercase(trimmed(value)))
}

impl LizardModeSuppression {
    /// What a setting asks for, once it is in lower case and without blanks
    /// around it.
    pub fn from_word(v: &str) -> (r: Option<LizardModeSuppression>)
        ensures
            r == suppression_of_word(v@),
    {
        if same_text(v, "false") || same_text(v, "off") || same_text(v, "none") || same_text(
            v,
            "0",
        ) {
            return None;
        }
        let suppress_buttons: bool = contains_text(v, "buttons");
        let suppress_mouse: bool = contains_text(v, "mouse");
        if !suppress_buttons && !suppress_mouse {
            return None;
        }
        Some(LizardModeSuppression { suppress_buttons, suppress_mouse })
    }

    /// What a setting asks for.
    pub fn from_setting(value: &str) -> (r: Option<LizardModeSuppression>)
        ensures
            r == suppression_of(value@),
    {
        LizardModeSuppression::from_word(lowercase_text(trimmed_text(value).as_str()).as_str())
    }

    /// Whether anything is kept quiet.
    pub fn is_any(&self) -> (r: bool)
        ensures
            r == (self.suppress_buttons || self.suppress_mouse),
    {
        self.suppress_buttons || self.suppress_mouse
    }
}

/// Whether `reports` are those of a tick: the clearing report for the buttons,
/// then a settings report for the mouse, the full one first and the short one
/// afterwards.
pub open spec fn are_reports(
    reports: Seq<[u8; 64]>,
    cfg: LizardModeSuppression,
    initial: bool,
) -> bool {
    let buttons: int = if cfg.suppress_buttons {
        1
    } else {
        0
    };
    let mouse: int = if cfg.suppress_mouse {
        1
    } else {
        0
    };
    &&& reports.len() == buttons + mouse
    &&& cfg.suppress_buttons ==> is_clear_report(reports[0]@)
    &&& cfg.suppress_mouse ==> is_settings_report(
        reports[buttons]@,
        if initial {
            disable_settings()
        } else {
            heartbeat_settings()
        },
    )
}

/// The reports of the first tick or of a heartbeat.
pub fn build_reports(cfg: &LizardModeSuppression, initial: bool) -> (r: Vec<[u8; 64]>)
    ensures
        are_reports(r@, *cfg, initial),
{
    let mut r: Vec<[u8; 64]> = Vec::new();
    if cfg.suppress_buttons {
        r.push(make_clear_mappings_report());
    }
    if cfg.suppress_mouse {
        r.push(
            if initial {
                make_disable_settings_report()
            } else {
                make_heartbeat_settings_report()
            },
        );
    }
    r
}

/// The reports of the first tick or of a heartbeat, for use without a trackpad
/// handler.
pub fn build_standalone_reports(cfg: &LizardModeSuppression, initial: bool) -> (r: Vec<[u8; 64]>)
    ensures
        ({
            let buttons: int = if cfg.suppress_buttons {
                1
            } else {
                0
            };
            let mouse: int = if cfg.suppress_mouse {
                1
            } else {
                0
            };
            &&& r@.len() == buttons + mouse
            &&& cfg.suppress_buttons ==> is_clear_report(r@[0]@)
            &&& cfg.suppress_mouse ==> is_settings_report(
                r@[buttons]@,
                if initial {
                    standalone_settings()
                } else {
                    heartbeat_settings()
                },
            )
        }),
{
    let mut r: Vec<[u8; 64]> = Vec::new();
    if cfg.suppress_buttons {
        r.push(make_clear_mappings_report());
    }
    if cfg.suppress_mouse {
        r.push(
            if initial {
                make_standalone_settings_report()
            } else {
                make_heartbeat_settings_report()
            },
        );
    }
    r
}

/// A raw interface that was found, and what is known of it.
#[derive(Debug, Clone, PartialEq, Eq)]
pub struct HidrawNode {
    pub name: String,
    /// What the kernel says of the device.
    pub uevent: String,
    /// Whether it backs an emulated keyboard or mouse.
    pub has_input: bool,
}

/// Whether a raw interface is a controller's of Valve.
pub open spec fn is_controller_node(n: HidrawNode) -> bool {
    occurs(n.uevent@, "000028DE"@) && !n.has_input
}

/// The paths of the controllers among raw interfaces.
pub open spec fn controller_paths(nodes: Seq<HidrawNode>) -> Seq<Seq<char>>
    decreases nodes.len(),
{
    if nodes.len() == 0 {
        Seq::empty()
    } else {
        let before = controller_paths(nodes.drop_last());
        if is_controller_node(nodes.last()) {
            before.push("/dev/"@ + nodes.last().name@)
        } else {
            before
        }
    }
}

/// The paths of the controllers among raw interfaces, in ascending order.
pub fn find_controller_hidraw_devices(nodes: &Vec<HidrawNode>) -> (r: Vec<String>)
    ensures
        sorts::<String>(views(r@), controller_paths(nodes@)),
{
    let mut found: Vec<String> = Vec::new();
    let mut i: usize = 0;
    assert(views(found@) =~= controller_paths(nodes@.take(0)));
    while i < nodes.len()
        invariant
            i <= nodes@.len(),
            views(found@) == controller_paths(nodes@.take(i as int)),
        decreases nodes@.len() - i,
    {
        let ghost before = views(found@);
        if contains_text(nodes[i].uevent.as_str(), "000028DE") && !nodes[i].has_input {
            found.push(joined("/dev/", nodes[i].name.as_str()));
            assert(views(found@) =~= before.push("/dev/"@ + nodes@[i as int].name@));
        }
        i = i + 1;
        proof {
            assert(nodes@.take(i as int).drop_last() =~= nodes@.take(i - 1));
            assert(nodes@.take(i as int).last() == nodes@[i - 1]);
        }
    }
    assert(nodes@.take(i as int) =~= nodes@);
    sorted(&found)
}

/// The text of the setting, with the default where it is absent.
pub open spec fn lizard_setting(settings: Map<Seq<char>, Seq<char>>) -> Seq<char> {
    crate::settings::setting(settings, "SUPPRESS_LIZARD_MODE"@, "buttons,mouse"@)
}

/// What a device's base configuration asks for. Without a word about it, all of
/// the emulation is kept quiet.
pub fn lizard_cfg_from_base(base: &Option<Config>) -> (r: Option<LizardModeSuppression>)
    ensures
        r == suppression_of(
            match *base {
                Some(c) => lizard_setting(c.settings@),
                None => "buttons,mouse"@,
            },
        ),
{
    match base {
        Some(c) => match c.settings.get(&"SUPPRESS_LIZARD_MODE".to_owned()) {
            Some(v) => LizardModeSuppression::from_setting(v.as_str()),
            None => LizardModeSuppression::from_setting("buttons,mouse"),
        },
        None => LizardModeSuppression::from_setting("buttons,mouse"),
    }
}

// ── Laws ─────────────────────────────────────────────────────────────────────

/// The first report for the mouse sets both trackpads to no emulation and
/// switches the absolute mouse off, byte by byte; a heartbeat only sets the
/// right trackpad again. Click pressures are not touched.
pub proof fn law_mouse_reports_byte_by_byte(buf: Seq<u8>, i: int)
    ensures
        is_settings_report(buf, disable_settings()) ==> buf.take(11) == seq![
            0x87u8,
            9u8,
            7u8,
            7u8,
            0u8,
            8u8,
            7u8,
            0u8,
            24u8,
            0u8,
            0u8,
        ] && buf.len() == 64 && (11 <= i < 64 ==> buf[i] == 0),
        is_settings_report(buf, heartbeat_settings()) ==> buf.take(5) == seq![
            0x87u8,
            3u8,
            8u8,
            7u8,
            0u8,
        ] && buf.len() == 64 && (5 <= i < 64 ==> buf[i] == 0),
        is_settings_report(buf, standalone_settings()) ==> buf.take(17) == seq![
            0x87u8,
            15u8,
            7u8,
            7u8,
            0u8,
            8u8,
            7u8,
            0u8,
            24u8,
            0u8,
            0u8,
            52u8,
            0xffu8,
            0xffu8,
            53u8,
            0xffu8,
            0xffu8,
        ] && buf.len() == 64 && (17 <= i < 64 ==> buf[i] == 0),
        is_clear_report(buf) ==> buf.len() == 64 && buf[0] == 0x81 && (1 <= i < 64 ==> buf[i] == 0),
{
    if is_settings_report(buf, disable_settings()) {
        let s = disable_settings();
        assert(s[0] == (7u8, 7u16) && s[1] == (8u8, 7u16) && s[2] == (24u8, 0u16));
        assert(buf.take(11) =~= seq![0x87u8, 9u8, 7u8, 7u8, 0u8, 8u8, 7u8, 0u8, 24u8, 0u8, 0u8]);
    }
    if is_settings_report(buf, heartbeat_settings()) {
        let s = heartbeat_settings();
        assert(s[0] == (8u8, 7u16));
        assert(buf.take(5) =~= seq![0x87u8, 3u8, 8u8, 7u8, 0u8]);
    }
    if is_settings_report(buf, standalone_settings()) {
        let s = standalone_settings();
        assert(s[0] == (7u8, 7u16) && s[1] == (8u8, 7u16) && s[2] == (24u8, 0u16));
        assert(s[3] == (52u8, 0xffffu16) && s[4] == (53u8, 0xffffu16));
        assert(buf.take(17) =~= seq![
            0x87u8,
            15u8,
            7u8,
            7u8,
            0u8,
            8u8,
            7u8,
            0u8,
            24u8,
            0u8,
            0u8,
            52u8,
            0xffu8,
            0xffu8,
            53u8,
            0xffu8,
            0xffu8,
        ]);
    }
}

/// The click pressures can be read back from their report: the left one behind
/// its number 52, the right one behind 53, low byte first.
pub proof fn law_click_pressures_are_told(buf: Seq<u8>, left: u16, right: u16)
    requires
        is_settings_report(buf, pressure_settings(left, right)),
    ensures
        buf[0] == 0x87,
        buf[1] == 6,
        buf[2] == 52,
        buf[3] + 256 * buf[4] == left,
        buf[5] == 53,
        buf[6] + 256 * buf[7] == right,
        forall|i: int| 8 <= i < 64 ==> #[trigger] buf[i] == 0,
{
    let s = pressure_settings(left, right);
    assert(s[0] == (52u8, left) && s[1] == (53u8, right));
}

/// Every setting of a report can be read back from it.
pub proof fn law_settings_are_told(buf: Seq<u8>, settings: Seq<(u8, u16)>, i: int)
    requires
        is_settings_report(buf, settings),
        0 <= i < settings.len(),
    ensures
        buf[2 + 3 * i] == settings[i].0,
        buf[3 + 3 * i] + 256 * buf[4 + 3 * i] == settings[i].1,
{
    let s = settings[i];
}

/// What is suppressed is what the setting names, and nothing where it is
/// switched off by one of its four words.
pub proof fn law_setting_names_what_is_suppressed(v: Seq<char>)
    ensures
        v == "false"@ || v == "off"@ || v == "none"@ || v == "0"@ ==> suppression_of_word(v)
            is None,
        suppression_of_word(v) matches Some(s) ==> (s.suppress_buttons <==> occurs(v, "buttons"@))
            && (s.suppress_mouse <==> occurs(v, "mouse"@)) && (s.suppress_buttons
            || s.suppress_mouse),
        v != "false"@ && v != "off"@ && v != "none"@ && v != "0"@ && (occurs(v, "buttons"@)
            || occurs(v, "mouse"@)) ==> suppression_of_word(v) is Some,
{
}

/// The controllers are the interfaces of the vendor without an input device of
/// their own, by their paths, and no others.
pub proof fn law_controllers_are_found(nodes: Seq<HidrawNode>, path: Seq<char>)
    ensures
        controller_paths(nodes).contains(path) <==> exists|i: int|
            0 <= i < nodes.len() && !(#[trigger] nodes[i]).has_input && occurs(
                nodes[i].uevent@,
                "000028DE"@,
            ) && path == "/dev/"@ + nodes[i].name@,
    decreases nodes.len(),
{
    if nodes.len() > 0 {
        let init = nodes.drop_last();
        law_controllers_are_found(init, path);
        assert(nodes[nodes.len() - 1] == nodes.last());
        assert forall|j: int| 0 <= j < init.len() implies #[trigger] init[j] == nodes[j] by {}
        assert forall|j: int| 0 <= j < init.len() implies #[trigger] nodes[j] == init[j] by {}
        let before = controller_paths(init);
        let last = "/dev/"@ + nodes.last().name@;
        let all = before.push(last);
        assert(all[before.len() as int] == last);
        if before.contains(path) {
            let i = choose|i: int| 0 <= i < before.len() && before[i] == path;
            assert(all[i] == path);
        }
        if all.contains(path) && path != last {
            let i = choose|i: int| 0 <= i < all.len() && all[i] == path;
            assert(before[i] == path);
        }
    }
}

/// The setting is read without regard to blanks around it and to capital
/// letters: settings that differ in no more than that suppress the same.
pub proof fn law_setting_is_read_without_case(a: Seq<char>, b: Seq<char>)
    ensures
        lowercase(trimmed(a)) == lowercase(trimmed(b)) ==> suppression_of(a) == suppression_of(b),
        lowercase(trimmed(a)) == "buttons,mouse"@ ==> suppression_of(a) == Some(
            LizardModeSuppression { suppress_buttons: true, suppress_mouse: true },
        ),
        lowercase(trimmed(a)) == "off"@ ==> suppression_of(a) is None,
{
    reveal_strlit("buttons,mouse");
    reveal_strlit("buttons");
    reveal_strlit("mouse");
    reveal_strlit("false");
    reveal_strlit("off");
    reveal_strlit("none");
    reveal_strlit("0");
    let s = "buttons,mouse"@;
    assert(s.skip(0).take(7) =~= "buttons"@);
    assert(starts(s.skip(0), "buttons"@));
    assert(s.skip(8).take(5) =~= "mouse"@);
    assert(starts(s.skip(8), "mouse"@));
    assert(s.len() == 13);
}

/// Without the setting both the buttons and the mouse are suppressed; with it,
/// what it says counts.
pub proof fn law_suppression_is_the_rule(settings: Map<Seq<char>, Seq<char>>)
    ensures
        !settings.contains_key("SUPPRESS_LIZARD_MODE"@) ==> lizard_setting(settings)
            == "buttons,mouse"@,
        settings.contains_key("SUPPRESS_LIZARD_MODE"@) ==> lizard_setting(settings)
            == settings["SUPPRESS_LIZARD_MODE"@],
{
}

/// Buttons are suppressed by one report and the mouse by another behind it. At
/// the start the mouse's report switches both pads and the smoothing off; later
/// ones switch the right pad off, which would come back by itself. What is not
/// to be suppressed gets no report.
pub proof fn law_reports_suppress_what_is_asked_for(
    reports: Seq<[u8; 64]>,
    cfg: LizardModeSuppression,
    initial: bool,
)
    requires
        are_reports(reports, cfg, initial),
    ensures
        !cfg.suppress_buttons && !cfg.suppress_mouse ==> reports.len() == 0,
        cfg.suppress_buttons && !cfg.suppress_mouse ==> reports.len() == 1,
        !cfg.suppress_buttons && cfg.suppress_mouse ==> reports.len() == 1,
        cfg.suppress_buttons && cfg.suppress_mouse ==> reports.len() == 2,
        cfg.suppress_buttons ==> reports[0]@[0] == 0x81,
        cfg.suppress_mouse && initial ==> reports.last()@.take(11) == seq![
            0x87u8,
            9u8,
            7u8,
            7u8,
            0u8,
            8u8,
            7u8,
            0u8,
            24u8,
            0u8,
            0u8,
        ],
        cfg.suppress_mouse && !initial ==> reports.last()@.take(5) == seq![
            0x87u8,
            3u8,
            8u8,
            7u8,
            0u8,
        ],
{
    if cfg.suppress_buttons {
        law_mouse_reports_byte_by_byte(reports[0]@, 0);
    }
    if cfg.suppress_mouse {
        law_mouse_reports_byte_by_byte(reports.last()@, 0);
    }
}

} // verus!
