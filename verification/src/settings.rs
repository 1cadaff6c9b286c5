//! The settings of an input device, read from a configuration's settings table.

use crate::config::TextTable;
use crate::event::{canonical, canonical_list, key_of_name, Event, Key};
use crate::order::views;
use crate::parse::{parse_modifiers, setting_modifiers};
use crate::text::{
    chars_of, cut_last, decimal, digit, lemma_cut_last, part, pieces, same_text, split_at_last,
    split_text,
};
use vstd::prelude::*;

verus! {

// ── Numbers ──────────────────────────────────────────────────────────────────

/// Whether a character is a decimal digit.
pub open spec fn is_digit(c: char) -> bool {
    '0' as int <= c as int <= '9' as int
}

/// The number that a text of decimal digits writes; none for any other text.
pub open spec fn digits_value(s: Seq<char>) -> Option<nat>
    decreases s.len(),
{
    if s.len() == 0 || !is_digit(s.last()) {
        None
    } else {
        let last = (s.last() as int - '0' as int) as nat;
        if s.len() == 1 {
            Some(last)
        } else {
            match digits_value(s.drop_last()) {
                Some(n) => Some(10 * n + last),
                None => None,
            }
        }
    }
}

/// The unsigned 64-bit number that a text writes: digits, perhaps behind a
/// plus sign.
pub open spec fn u64_of(s: Seq<char>) -> Option<u64> {
    let digits = if s.len() > 0 && s[0] == '+' {
        s.skip(1)
    } else {
        s
    };
    match digits_value(digits) {
        Some(n) => if n <= u64::MAX {
            Some(n as u64)
        } else {
            None
        },
        None => None,
    }
}

/// The signed 32-bit number that a text writes: digits, perhaps behind a sign.
pub open spec fn i32_of(s: Seq<char>) -> Option<i32> {
    if s.len() > 0 && s[0] == '-' {
        match digits_value(s.skip(1)) {
            Some(n) => if n <= 0x8000_0000 {
                Some((-(n as int)) as i32)
            } else {
                None
            },
            None => None,
        }
    } else {
        match u64_of(s) {
            Some(n) => if n <= i32::MAX {
                Some(n as i32)
            } else {
                None
            },
            None => None,
        }
    }
}

/// The truth value that a text writes.
pub open spec fn bool_of(s: Seq<char>) -> Option<bool> {
    if s == "true"@ {
        Some(true)
    } else if s == "false"@ {
        Some(false)
    } else {
        None
    }
}

proof fn lemma_digits_none(s: Seq<char>, i: int)
    requires
        0 <= i < s.len(),
        !is_digit(s[i]),
    ensures
        digits_value(s) is None,
    decreases s.len(),
{
    if i < s.len() - 1 {
        lemma_digits_none(s.drop_last(), i);
    }
}

/// The number that digits write, as far as it fits into 64 bits: none in the
/// outer option for text that is no number, none in the inner one for a number
/// that is too large.
fn read_digits(s: &str) -> (r: Option<Option<u64>>)
    ensures
        match r {
            None => digits_value(s@) is None,
            Some(None) => digits_value(s@) matches Some(n) && n > u64::MAX,
            Some(Some(v)) => digits_value(s@) == Some(v as nat),
        },
{
    let x: Vec<char> = chars_of(s);
    if x.len() == 0 {
        return None;
    }
    let mut acc: u64 = 0;
    let mut large: bool = false;
    let mut i: usize = 0;
    while i < x.len()
        invariant
            x@ == s@,
            i <= x@.len(),
            i == 0 ==> acc == 0 && !large,
            i > 0 ==> digits_value(s@.take(i as int)) is Some,
            i > 0 && !large ==> digits_value(s@.take(i as int)) == Some(acc as nat),
            i > 0 && large ==> digits_value(s@.take(i as int))->0 > u64::MAX,
        decreases x@.len() - i,
    {
        let c: char = x[i];
        if c < '0' || c > '9' {
            proof {
                lemma_digits_none(s@, i as int);
            }
            return None;
        }
        let d: u64 = c as u64 - '0' as u64;
        proof {
            let t = s@.take(i + 1);
            assert(t.drop_last() =~= s@.take(i as int));
            assert(t.last() == c);
        }
        if !large {
            if acc > (u64::MAX - d) / 10 {
                large = true;
                assert(10 * acc + d > u64::MAX);
            } else {
                acc = 10 * acc + d;
            }
        }
        i = i + 1;
    }
    assert(s@.take(i as int) =~= s@);
    if large {
        Some(None)
    } else {
        Some(Some(acc))
    }
}

/// The unsigned number that `s` writes.
pub fn read_u64(s: &str) -> (r: Option<u64>)
    ensures
        r == u64_of(s@),
{
    let x: Vec<char> = chars_of(s);
    if x.len() > 0 && x[0] == '+' {
        let rest: String = part(s, 1, x.len());
        assert(rest@ =~= s@.skip(1));
        match read_digits(rest.as_str()) {
            Some(v) => v,
            None => None,
        }
    } else {
        match read_digits(s) {
            Some(v) => v,
            None => None,
        }
    }
}

/// The signed number that `s` writes.
pub fn read_i32(s: &str) -> (r: Option<i32>)
    ensures
        r == i32_of(s@),
{
    let x: Vec<char> = chars_of(s);
    if x.len() > 0 && x[0] == '-' {
        let rest: String = part(s, 1, x.len());
        assert(rest@ =~= s@.skip(1));
        match read_digits(rest.as_str()) {
            Some(Some(v)) => if v <= 0x8000_0000 {
                Some((-(v as i64)) as i32)
            } else {
                None
            },
            _ => None,
        }
    } else {
        match read_u64(s) {
            Some(v) => if v <= i32::MAX as u64 {
                Some(v as i32)
            } else {
                None
            },
            None => None,
        }
    }
}

/// The truth value that `s` writes.
pub fn read_bool(s: &str) -> (r: Option<bool>)
    ensures
        r == bool_of(s@),
{
    if same_text(s, "true") {
        Some(true)
    } else if same_text(s, "false") {
        Some(false)
    } else {
        None
    }
}

// ── Settings ─────────────────────────────────────────────────────────────────

/// What a stick does.
#[derive(Debug, Clone, PartialEq, Eq)]
pub struct Stick {
    /// `cursor`, `scroll`, `bind`, or anything else for nothing.
    pub function: String,
    /// Milliseconds between two movements; 0 for none.
    pub sensitivity: u64,
    pub deadzone: i32,
    /// What has to be held for the stick to move anything.
    pub activation_modifiers: Vec<Event>,
}

/// How keys that are bound to movements move.
#[derive(Debug, Clone, PartialEq, Eq)]
pub struct Movement {
    pub speed: i32,
    /// The acceleration as written.
    pub acceleration: String,
}

/// The settings of a device.
#[derive(Debug, Clone, PartialEq, Eq)]
pub struct Settings {
    pub lstick: Stick,
    pub rstick: Stick,
    pub invert_cursor_axis: bool,
    pub invert_scroll_axis: bool,
    pub axis_16_bit: bool,
    pub stadia: bool,
    pub cursor: Movement,
    pub scroll: Movement,
    pub chain_only: bool,
    pub layout_switcher: Option<(Event, Vec<Event>)>,
    pub notify_layout_switch: bool,
    /// Whether the sticks go on moving things while paused.
    pub cursor_when_paused: bool,
}

/// A setting whose value cannot be read.
#[derive(Debug, Clone, Copy, PartialEq, Eq, Structural)]
pub enum SettingsError {
    LstickSensitivity,
    LstickDeadzone,
    RstickSensitivity,
    RstickDeadzone,
    Axis16Bit,
    Stadia,
    ChainOnly,
    InvertCursorAxis,
    InvertScrollAxis,
    CursorSpeed,
    ScrollSpeed,
    LayoutSwitcher,
    NotifyLayoutSwitch,
    CursorWhenPaused,
}

/// What an unreadable setting is answered.
pub open spec fn error_message(e: SettingsError) -> Seq<char> {
    match e {
        SettingsError::LstickSensitivity =>
            "Invalid value for LSTICK_SENSITIVITY, please use an integer value >= 0"@,
        SettingsError::LstickDeadzone =>
            "Invalid value for LSTICK_DEADZONE, please use an integer between 0 and 128."@,
        SettingsError::RstickSensitivity =>
            "Invalid value for RSTICK_SENSITIVITY, please use an integer value >= 0"@,
        SettingsError::RstickDeadzone =>
            "Invalid value for RSTICK_DEADZONE, please use an integer between 0 and 128."@,
        SettingsError::Axis16Bit => "16_BIT_AXIS can only be true or false."@,
        SettingsError::Stadia => "STADIA can only be true or false."@,
        SettingsError::ChainOnly => "CHAIN_ONLY can only be true or false."@,
        SettingsError::InvertCursorAxis => "INVERT_CURSOR_AXIS can only be true or false."@,
        SettingsError::InvertScrollAxis => "INVERT_SCROLL_AXIS can only be true or false."@,
        SettingsError::CursorSpeed =>
            "Invalid value for CURSOR_SPEED, please use an integer value."@,
        SettingsError::ScrollSpeed =>
            "Invalid value for SCROLL_SPEED, please use an integer value."@,
        SettingsError::LayoutSwitcher => "LAYOUT_SWITCHER is invalid."@,
        SettingsError::NotifyLayoutSwitch => "NOTIFY_LAYOUT_SWITCH can only be true or false."@,
        SettingsError::CursorWhenPaused => "CURSOR_WHEN_PAUSED can only be true or false."@,
    }
}

impl SettingsError {
    /// What to tell the user.
    pub fn message(&self) -> (r: &'static str)
        ensures
            r@ == error_message(*self),
    {
        match *self {
            SettingsError::LstickSensitivity =>
                "Invalid value for LSTICK_SENSITIVITY, please use an integer value >= 0",
            SettingsError::LstickDeadzone =>
                "Invalid value for LSTICK_DEADZONE, please use an integer between 0 and 128.",
            SettingsError::RstickSensitivity =>
                "Invalid value for RSTICK_SENSITIVITY, please use an integer value >= 0",
            SettingsError::RstickDeadzone =>
                "Invalid value for RSTICK_DEADZONE, please use an integer between 0 and 128.",
            SettingsError::Axis16Bit => "16_BIT_AXIS can only be true or false.",
            SettingsError::Stadia => "STADIA can only be true or false.",
            SettingsError::ChainOnly => "CHAIN_ONLY can only be true or false.",
            SettingsError::InvertCursorAxis => "INVERT_CURSOR_AXIS can only be true or false.",
            SettingsError::InvertScrollAxis => "INVERT_SCROLL_AXIS can only be true or false.",
            SettingsError::CursorSpeed =>
                "Invalid value for CURSOR_SPEED, please use an integer value.",
            SettingsError::ScrollSpeed =>
                "Invalid value for SCROLL_SPEED, please use an integer value.",
            SettingsError::LayoutSwitcher => "LAYOUT_SWITCHER is invalid.",
            SettingsError::NotifyLayoutSwitch => "NOTIFY_LAYOUT_SWITCH can only be true or false.",
            SettingsError::CursorWhenPaused => "CURSOR_WHEN_PAUSED can only be true or false.",
        }
    }
}

/// A setting, or what stands for it where it is absent.
pub open spec fn setting(
    settings: Map<Seq<char>, Seq<char>>,
    name: Seq<char>,
    absent: Seq<char>,
) -> Seq<char> {
    if settings.contains_key(name) {
        settings[name]
    } else {
        absent
    }
}

fn setting_text(settings: &TextTable, name: &str, absent: &str) -> (r: String)
    ensures
        r@ == setting(settings@, name@, absent@),
{
    match settings.get(&name.to_owned()) {
        Some(v) => v.clone(),
        None => absent.to_owned(),
    }
}

/// The keys of a list of names, where all of them are keys.
pub open spec fn keys_named(names: Seq<Seq<char>>) -> Option<Seq<Event>>
    decreases names.len(),
{
    if names.len() == 0 {
        Some(Seq::empty())
    } else {
        match (keys_named(names.drop_last()), key_of_name(names.last())) {
            (Some(init), Some(k)) => Some(init.push(Event::Key(k))),
            _ => None,
        }
    }
}

proof fn lemma_keys_named_none(names: Seq<Seq<char>>, i: int)
    requires
        0 <= i <= names.len(),
        keys_named(names.take(i)) is None,
    ensures
        keys_named(names) is None,
    decreases names.len() - i,
{
    if i < names.len() {
        assert(names.take(i + 1).drop_last() =~= names.take(i));
        lemma_keys_named_none(names, i + 1);
    } else {
        assert(names.take(i) =~= names);
    }
}

/// The combination that a text of key names joined by `-` stands for.
pub open spec fn switcher_of(s: Seq<char>) -> Option<(Event, Seq<Event>)> {
    match cut_last(s, '-') {
        Some((mods, key)) => match (keys_named(pieces(mods, '-')), key_of_name(key)) {
            (Some(m), Some(k)) => Some((Event::Key(k), canonical(m))),
            _ => None,
        },
        None => match key_of_name(s) {
            Some(k) => Some((Event::Key(k), Seq::empty())),
            None => None,
        },
    }
}

fn read_switcher(s: &str) -> (r: Option<(Event, Vec<Event>)>)
    ensures
        match r {
            Some((e, m)) => switcher_of(s@) == Some((e, m@)),
            None => switcher_of(s@) is None,
        },
{
    match split_at_last(s, '-') {
        Some((mods, key)) => {
            let names: Vec<String> = split_text(mods.as_str(), '-');
            let mut m: Vec<Event> = Vec::new();
            let mut i: usize = 0;
            assert(views(names@).take(0) =~= Seq::<Seq<char>>::empty());
            while i < names.len()
                invariant
                    i <= names@.len(),
                    cut_last(s@, '-') == Some((mods@, key@)),
                    views(names@) == pieces(mods@, '-'),
                    keys_named(views(names@).take(i as int)) == Some(m@),
                decreases names@.len() - i,
            {
                proof {
                    let t = views(names@).take(i + 1);
                    assert(t.drop_last() =~= views(names@).take(i as int));
                    assert(t.last() == names@[i as int]@);
                }
                match Key::from_name(names[i].as_str()) {
                    Some(k) => {
                        m.push(Event::Key(k));
                    },
                    None => {
                        proof {
                            lemma_keys_named_none(views(names@), i + 1);
                        }
                        return None;
                    },
                }
                i = i + 1;
            }
            assert(views(names@).take(i as int) =~= views(names@));
            match Key::from_name(key.as_str()) {
                Some(k) => Some((Event::Key(k), canonical_list(&m))),
                None => None,
            }
        },
        None => match Key::from_name(s) {
            Some(k) => {
                let none: Vec<Event> = Vec::new();
                assert(none@ =~= Seq::<Event>::empty());
                Some((Event::Key(k), none))
            },
            None => None,
        },
    }
}

/// The first setting of the table that cannot be read, in the order in which
/// they are looked at.
pub open spec fn first_error(settings: Map<Seq<char>, Seq<char>>) -> Option<SettingsError> {
    if u64_of(setting(settings, "LSTICK_SENSITIVITY"@, "0"@)) is None {
        Some(SettingsError::LstickSensitivity)
    } else if i32_of(setting(settings, "LSTICK_DEADZONE"@, "5"@)) is None {
        Some(SettingsError::LstickDeadzone)
    } else if u64_of(setting(settings, "RSTICK_SENSITIVITY"@, "0"@)) is None {
        Some(SettingsError::RstickSensitivity)
    } else if i32_of(setting(settings, "RSTICK_DEADZONE"@, "5"@)) is None {
        Some(SettingsError::RstickDeadzone)
    } else if bool_of(setting(settings, "16_BIT_AXIS"@, "false"@)) is None {
        Some(SettingsError::Axis16Bit)
    } else if bool_of(setting(settings, "STADIA"@, "false"@)) is None {
        Some(SettingsError::Stadia)
    } else if bool_of(setting(settings, "CHAIN_ONLY"@, "true"@)) is None {
        Some(SettingsError::ChainOnly)
    } else if bool_of(setting(settings, "INVERT_CURSOR_AXIS"@, "false"@)) is None {
        Some(SettingsError::InvertCursorAxis)
    } else if bool_of(setting(settings, "INVERT_SCROLL_AXIS"@, "false"@)) is None {
        Some(SettingsError::InvertScrollAxis)
    } else if i32_of(setting(settings, "CURSOR_SPEED"@, "0"@)) is None {
        Some(SettingsError::CursorSpeed)
    } else if i32_of(setting(settings, "SCROLL_SPEED"@, "0"@)) is None {
        Some(SettingsError::ScrollSpeed)
    } else if settings.contains_key("LAYOUT_SWITCHER"@) && switcher_of(
        settings["LAYOUT_SWITCHER"@],
    ) is None {
        Some(SettingsError::LayoutSwitcher)
    } else if bool_of(setting(settings, "NOTIFY_LAYOUT_SWITCH"@, "false"@)) is None {
        Some(SettingsError::NotifyLayoutSwitch)
    } else if bool_of(setting(settings, "CURSOR_WHEN_PAUSED"@, "false"@)) is None {
        Some(SettingsError::CursorWhenPaused)
    } else {
        None
    }
}

/// Whether `s` holds what the table says, with the defaults for what it does
/// not say.
pub open spec fn is_settings_of(
    settings: Map<Seq<char>, Seq<char>>,
    aliases: Map<Seq<char>, Seq<char>>,
    s: Settings,
) -> bool {
    &&& s.lstick.function@ == setting(settings, "LSTICK"@, "cursor"@)
    &&& Some(s.lstick.sensitivity) == u64_of(setting(settings, "LSTICK_SENSITIVITY"@, "0"@))
    &&& Some(s.lstick.deadzone) == i32_of(setting(settings, "LSTICK_DEADZONE"@, "5"@))
    &&& s.lstick.activation_modifiers@ == setting_modifiers(
        settings,
        "LSTICK_ACTIVATION_MODIFIERS"@,
        aliases,
    )
    &&& s.rstick.function@ == setting(settings, "RSTICK"@, "scroll"@)
    &&& Some(s.rstick.sensitivity) == u64_of(setting(settings, "RSTICK_SENSITIVITY"@, "0"@))
    &&& Some(s.rstick.deadzone) == i32_of(setting(settings, "RSTICK_DEADZONE"@, "5"@))
    &&& s.rstick.activation_modifiers@ == setting_modifiers(
        settings,
        "RSTICK_ACTIVATION_MODIFIERS"@,
        aliases,
    )
    &&& Some(s.axis_16_bit) == bool_of(setting(settings, "16_BIT_AXIS"@, "false"@))
    &&& Some(s.stadia) == bool_of(setting(settings, "STADIA"@, "false"@))
    &&& Some(s.chain_only) == bool_of(setting(settings, "CHAIN_ONLY"@, "true"@))
    &&& Some(s.invert_cursor_axis) == bool_of(setting(settings, "INVERT_CURSOR_AXIS"@, "false"@))
    &&& Some(s.invert_scroll_axis) == bool_of(setting(settings, "INVERT_SCROLL_AXIS"@, "false"@))
    &&& Some(s.cursor.speed) == i32_of(setting(settings, "CURSOR_SPEED"@, "0"@))
    &&& s.cursor.acceleration@ == setting(settings, "CURSOR_ACCEL"@, "1"@)
    &&& Some(s.scroll.speed) == i32_of(setting(settings, "SCROLL_SPEED"@, "0"@))
    &&& s.scroll.acceleration@ == setting(settings, "SCROLL_ACCEL"@, "1"@)
    &&& match s.layout_switcher {
        Some((e, m)) => settings.contains_key("LAYOUT_SWITCHER"@) && switcher_of(
            settings["LAYOUT_SWITCHER"@],
        ) == Some((e, m@)),
        None => !settings.contains_key("LAYOUT_SWITCHER"@),
    }
    &&& Some(s.notify_layout_switch) == bool_of(
        setting(settings, "NOTIFY_LAYOUT_SWITCH"@, "false"@),
    )
    &&& Some(s.cursor_when_paused) == bool_of(
        setting(settings, "CURSOR_WHEN_PAUSED"@, "false"@),
    )
}

impl Settings {
    /// Read the settings table of a device's configuration. Accelerations are
    /// left as written.
    pub fn read(settings: &TextTable, aliases: &TextTable) -> (r: Result<Settings, SettingsError>)
        ensures
            match r {
                Ok(s) => first_error(settings@) is None && is_settings_of(settings@, aliases@, s),
                Err(e) => first_error(settings@) == Some(e),
            },
    {
        let lstick_sensitivity: u64 = match read_u64(
            setting_text(settings, "LSTICK_SENSITIVITY", "0").as_str(),
        ) {
            Some(v) => v,
            None => {
                return Err(SettingsError::LstickSensitivity);
            },
        };
        let lstick_deadzone: i32 = match read_i32(
            setting_text(settings, "LSTICK_DEADZONE", "5").as_str(),
        ) {
            Some(v) => v,
            None => {
                return Err(SettingsError::LstickDeadzone);
            },
        };
        let rstick_sensitivity: u64 = match read_u64(
            setting_text(settings, "RSTICK_SENSITIVITY", "0").as_str(),
        ) {
            Some(v) => v,
            None => {
                return Err(SettingsError::RstickSensitivity);
            },
        };
        let rstick_deadzone: i32 = match read_i32(
            setting_text(settings, "RSTICK_DEADZONE", "5").as_str(),
        ) {
            Some(v) => v,
            None => {
                return Err(SettingsError::RstickDeadzone);
            },
        };
        let axis_16_bit: bool = match read_bool(
            setting_text(settings, "16_BIT_AXIS", "false").as_str(),
        ) {
            Some(v) => v,
            None => {
                return Err(SettingsError::Axis16Bit);
            },
        };
        let stadia: bool = match read_bool(setting_text(settings, "STADIA", "false").as_str()) {
            Some(v) => v,
            None => {
                return Err(SettingsError::Stadia);
            },
        };
        let chain_only: bool = match read_bool(
            setting_text(settings, "CHAIN_ONLY", "true").as_str(),
        ) {
            Some(v) => v,
            None => {
                return Err(SettingsError::ChainOnly);
            },
        };
        let invert_cursor_axis: bool = match read_bool(
            setting_text(settings, "INVERT_CURSOR_AXIS", "false").as_str(),
        ) {
            Some(v) => v,
            None => {
                return Err(SettingsError::InvertCursorAxis);
            },
        };
        let invert_scroll_axis: bool = match read_bool(
            setting_text(settings, "INVERT_SCROLL_AXIS", "false").as_str(),
        ) {
            Some(v) => v,
            None => {
                return Err(SettingsError::InvertScrollAxis);
            },
        };
        let cursor_speed: i32 = match read_i32(
            setting_text(settings, "CURSOR_SPEED", "0").as_str(),
        ) {
            Some(v) => v,
            None => {
                return Err(SettingsError::CursorSpeed);
            },
        };
        let scroll_speed: i32 = match read_i32(
            setting_text(settings, "SCROLL_SPEED", "0").as_str(),
        ) {
            Some(v) => v,
            None => {
                return Err(SettingsError::ScrollSpeed);
            },
        };
        let layout_switcher: Option<(Event, Vec<Event>)> = match settings.get(
            &"LAYOUT_SWITCHER".to_owned(),
        ) {
            Some(text) => match read_switcher(text.as_str()) {
                Some(v) => Some(v),
                None => {
                    return Err(SettingsError::LayoutSwitcher);
                },
            },
            None => None,
        };
        let notify_layout_switch: bool = match read_bool(
            setting_text(settings, "NOTIFY_LAYOUT_SWITCH", "false").as_str(),
        ) {
            Some(v) => v,
            None => {
                return Err(SettingsError::NotifyLayoutSwitch);
            },
        };
        let cursor_when_paused: bool = match read_bool(
            setting_text(settings, "CURSOR_WHEN_PAUSED", "false").as_str(),
        ) {
            Some(v) => v,
            None => {
                return Err(SettingsError::CursorWhenPaused);
            },
        };
        Ok(
            Settings {
                lstick: Stick {
                    function: setting_text(settings, "LSTICK", "cursor"),
                    sensitivity: lstick_sensitivity,
                    deadzone: lstick_deadzone,
                    activation_modifiers: parse_modifiers(
                        settings,
                        "LSTICK_ACTIVATION_MODIFIERS",
                        aliases,
                    ),
                },
                rstick: Stick {
                    function: setting_text(settings, "RSTICK", "scroll"),
                    sensitivity: rstick_sensitivity,
                    deadzone: rstick_deadzone,
                    activation_modifiers: parse_modifiers(
                        settings,
                        "RSTICK_ACTIVATION_MODIFIERS",
                        aliases,
                    ),
                },
                invert_cursor_axis,
                invert_scroll_axis,
                axis_16_bit,
                stadia,
                cursor: Movement {
                    speed: cursor_speed,
                    acceleration: setting_text(settings, "CURSOR_ACCEL", "1"),
                },
                scroll: Movement {
                    speed: scroll_speed,
                    acceleration: setting_text(settings, "SCROLL_ACCEL", "1"),
                },
                chain_only,
                layout_switcher,
                notify_layout_switch,
                cursor_when_paused,
            },
        )
    }
}

// ── Laws ─────────────────────────────────────────────────────────────────────

proof fn lemma_digits_of_decimal(n: nat)
    ensures
        digits_value(decimal(n)) == Some(n),
        decimal(n).len() > 0,
        is_digit(decimal(n)[0]),
    decreases n,
{
    if n < 10 {
        assert(decimal(n).last() == digit(n as int));
    } else {
        lemma_digits_of_decimal(n / 10);
        let head = decimal(n / 10);
        assert(decimal(n).drop_last() =~= head);
        assert(decimal(n).last() == digit((n % 10) as int));
        assert(decimal(n)[0] == head[0]);
    }
}

/// A number is read as it is written: in decimal digits, with or without a plus
/// sign, and behind a minus sign as its opposite. What is too large is not
/// read.
pub proof fn law_numbers_are_read_as_written(n: nat)
    ensures
        n <= u64::MAX <==> u64_of(decimal(n)) == Some(n as u64),
        n > u64::MAX ==> u64_of(decimal(n)) is None,
        n <= u64::MAX ==> u64_of(seq!['+'] + decimal(n)) == Some(n as u64),
        n <= i32::MAX ==> i32_of(decimal(n)) == Some(n as i32),
        n <= i32::MAX ==> i32_of(seq!['+'] + decimal(n)) == Some(n as i32),
        n > i32::MAX ==> i32_of(decimal(n)) is None,
        n <= 0x8000_0000 ==> i32_of(seq!['-'] + decimal(n)) == Some((-(n as int)) as i32),
        n > 0x8000_0000 ==> i32_of(seq!['-'] + decimal(n)) is None,
        u64_of(seq!['-'] + decimal(n)) is None,
{
    lemma_digits_of_decimal(n);
    let plus = seq!['+'] + decimal(n);
    let minus = seq!['-'] + decimal(n);
    assert(plus.skip(1) =~= decimal(n));
    assert(minus.skip(1) =~= decimal(n));
    lemma_digits_none(minus, 0);
}

/// A text with anything but digits behind its sign is no number, and neither is
/// an empty one.
pub proof fn law_other_texts_are_no_numbers(s: Seq<char>, i: int)
    requires
        s.len() == 0 || (0 <= i < s.len() && !('0' as int <= s[i] as int <= '9' as int) && (i > 0
            || (s[0] != '+' && s[0] != '-'))),
    ensures
        u64_of(s) is None,
        i32_of(s) is None,
{
    if s.len() > 0 {
        lemma_digits_none(s, i);
        if i > 0 {
            assert(s.skip(1)[i - 1] == s[i]);
            lemma_digits_none(s.skip(1), i - 1);
        }
    }
}

proof fn lemma_defaults()
    ensures
        u64_of("0"@) == Some(0u64),
        i32_of("0"@) == Some(0i32),
        i32_of("5"@) == Some(5i32),
        bool_of("true"@) == Some(true),
        bool_of("false"@) == Some(false),
{
    reveal_strlit("0");
    reveal_strlit("5");
    reveal_strlit("true");
    reveal_strlit("false");
    assert("0"@ =~= seq!['0']);
    assert("5"@ =~= seq!['5']);
    assert("true"@.len() != "false"@.len());
}

/// Settings that say nothing are as they are by default, and each setting that
/// says something is heard for what it is called.
pub proof fn law_settings_are_heard_by_their_names(
    settings: Map<Seq<char>, Seq<char>>,
    aliases: Map<Seq<char>, Seq<char>>,
    s: Settings,
    n: nat,
)
    requires
        is_settings_of(settings, aliases, s),
    ensures
        !settings.contains_key("16_BIT_AXIS"@) ==> !s.axis_16_bit,
        settings.contains_key("16_BIT_AXIS"@) ==> settings["16_BIT_AXIS"@] == if s.axis_16_bit {
            "true"@
        } else {
            "false"@
        },
        !settings.contains_key("STADIA"@) ==> !s.stadia,
        settings.contains_key("STADIA"@) ==> settings["STADIA"@] == if s.stadia {
            "true"@
        } else {
            "false"@
        },
        !settings.contains_key("CHAIN_ONLY"@) ==> s.chain_only,
        settings.contains_key("CHAIN_ONLY"@) ==> settings["CHAIN_ONLY"@] == if s.chain_only {
            "true"@
        } else {
            "false"@
        },
        !settings.contains_key("INVERT_CURSOR_AXIS"@) ==> !s.invert_cursor_axis,
        settings.contains_key("INVERT_CURSOR_AXIS"@) ==> settings["INVERT_CURSOR_AXIS"@] == if s.invert_cursor_axis {
            "true"@
        } else {
            "false"@
        },
        !settings.contains_key("INVERT_SCROLL_AXIS"@) ==> !s.invert_scroll_axis,
        settings.contains_key("INVERT_SCROLL_AXIS"@) ==> settings["INVERT_SCROLL_AXIS"@] == if s.invert_scroll_axis {
            "true"@
        } else {
            "false"@
        },
        !settings.contains_key("NOTIFY_LAYOUT_SWITCH"@) ==> !s.notify_layout_switch,
        settings.contains_key("NOTIFY_LAYOUT_SWITCH"@) ==> settings["NOTIFY_LAYOUT_SWITCH"@] == if s.notify_layout_switch {
            "true"@
        } else {
            "false"@
        },
        !settings.contains_key("CURSOR_WHEN_PAUSED"@) ==> !s.cursor_when_paused,
        settings.contains_key("CURSOR_WHEN_PAUSED"@) ==> settings["CURSOR_WHEN_PAUSED"@] == if s.cursor_when_paused {
            "true"@
        } else {
            "false"@
        },
        !settings.contains_key("LSTICK_DEADZONE"@) ==> s.lstick.deadzone == 5,
        n <= i32::MAX && settings.contains_key("LSTICK_DEADZONE"@) && settings["LSTICK_DEADZONE"@] == decimal(n) ==> s.lstick.deadzone
            == n,
        n <= i32::MAX && settings.contains_key("LSTICK_DEADZONE"@) && settings["LSTICK_DEADZONE"@] == seq!['-'] + decimal(n)
            ==> s.lstick.deadzone == -n,
        !settings.contains_key("RSTICK_DEADZONE"@) ==> s.rstick.deadzone == 5,
        n <= i32::MAX && settings.contains_key("RSTICK_DEADZONE"@) && settings["RSTICK_DEADZONE"@] == decimal(n) ==> s.rstick.deadzone
            == n,
        n <= i32::MAX && settings.contains_key("RSTICK_DEADZONE"@) && settings["RSTICK_DEADZONE"@] == seq!['-'] + decimal(n)
            ==> s.rstick.deadzone == -n,
        !settings.contains_key("CURSOR_SPEED"@) ==> s.cursor.speed == 0,
        n <= i32::MAX && settings.contains_key("CURSOR_SPEED"@) && settings["CURSOR_SPEED"@] == decimal(n) ==> s.cursor.speed
            == n,
        n <= i32::MAX && settings.contains_key("CURSOR_SPEED"@) && settings["CURSOR_SPEED"@] == seq!['-'] + decimal(n)
            ==> s.cursor.speed == -n,
        !settings.contains_key("SCROLL_SPEED"@) ==> s.scroll.speed == 0,
        n <= i32::MAX && settings.contains_key("SCROLL_SPEED"@) && settings["SCROLL_SPEED"@] == decimal(n) ==> s.scroll.speed
            == n,
        n <= i32::MAX && settings.contains_key("SCROLL_SPEED"@) && settings["SCROLL_SPEED"@] == seq!['-'] + decimal(n)
            ==> s.scroll.speed == -n,
        !settings.contains_key("LSTICK_SENSITIVITY"@) ==> s.lstick.sensitivity == 0,
        n <= u64::MAX && settings.contains_key("LSTICK_SENSITIVITY"@) && settings["LSTICK_SENSITIVITY"@] == decimal(n) ==> s.lstick.sensitivity
            == n,
        !settings.contains_key("RSTICK_SENSITIVITY"@) ==> s.rstick.sensitivity == 0,
        n <= u64::MAX && settings.contains_key("RSTICK_SENSITIVITY"@) && settings["RSTICK_SENSITIVITY"@] == decimal(n) ==> s.rstick.sensitivity
            == n,
        !settings.contains_key("LSTICK"@) ==> s.lstick.function@ == "cursor"@,
        settings.contains_key("LSTICK"@) ==> s.lstick.function@ == settings["LSTICK"@],
        !settings.contains_key("RSTICK"@) ==> s.rstick.function@ == "scroll"@,
        settings.contains_key("RSTICK"@) ==> s.rstick.function@ == settings["RSTICK"@],
        !settings.contains_key("CURSOR_ACCEL"@) ==> s.cursor.acceleration@ == "1"@,
        settings.contains_key("CURSOR_ACCEL"@) ==> s.cursor.acceleration@ == settings["CURSOR_ACCEL"@],
        !settings.contains_key("SCROLL_ACCEL"@) ==> s.scroll.acceleration@ == "1"@,
        settings.contains_key("SCROLL_ACCEL"@) ==> s.scroll.acceleration@ == settings["SCROLL_ACCEL"@],
        s.layout_switcher is Some <==> settings.contains_key("LAYOUT_SWITCHER"@),
        !settings.contains_key("LSTICK_ACTIVATION_MODIFIERS"@) ==> s.lstick.activation_modifiers@
            == Seq::<Event>::empty(),
        !settings.contains_key("RSTICK_ACTIVATION_MODIFIERS"@) ==> s.rstick.activation_modifiers@
            == Seq::<Event>::empty(),
        settings.contains_key("LSTICK_ACTIVATION_MODIFIERS"@) ==> s.lstick.activation_modifiers@
            == crate::parse::known_events(
            aliases,
            crate::hints::nonempty(pieces(settings["LSTICK_ACTIVATION_MODIFIERS"@], '-')),
        ),
        settings.contains_key("RSTICK_ACTIVATION_MODIFIERS"@) ==> s.rstick.activation_modifiers@
            == crate::parse::known_events(
            aliases,
            crate::hints::nonempty(pieces(settings["RSTICK_ACTIVATION_MODIFIERS"@], '-')),
        ),
{
    lemma_defaults();
    law_numbers_are_read_as_written(n);
}

/// An error names a setting that is there and cannot be read. Where any cannot
/// be read there is an error, and where all can there is none.
pub proof fn law_errors_name_unreadable_settings(settings: Map<Seq<char>, Seq<char>>)
    ensures
        first_error(settings) == Some(SettingsError::LstickSensitivity) ==> settings.contains_key(
            "LSTICK_SENSITIVITY"@,
        ) && u64_of(settings["LSTICK_SENSITIVITY"@]) is None,
        settings.contains_key("LSTICK_SENSITIVITY"@) && u64_of(settings["LSTICK_SENSITIVITY"@]) is None ==> first_error(settings)
            is Some,
        first_error(settings) == Some(SettingsError::LstickDeadzone) ==> settings.contains_key(
            "LSTICK_DEADZONE"@,
        ) && i32_of(settings["LSTICK_DEADZONE"@]) is None,
        settings.contains_key("LSTICK_DEADZONE"@) && i32_of(settings["LSTICK_DEADZONE"@]) is None ==> first_error(settings)
            is Some,
        first_error(settings) == Some(SettingsError::RstickSensitivity) ==> settings.contains_key(
            "RSTICK_SENSITIVITY"@,
        ) && u64_of(settings["RSTICK_SENSITIVITY"@]) is None,
        settings.contains_key("RSTICK_SENSITIVITY"@) && u64_of(settings["RSTICK_SENSITIVITY"@]) is None ==> first_error(settings)
            is Some,
        first_error(settings) == Some(SettingsError::RstickDeadzone) ==> settings.contains_key(
            "RSTICK_DEADZONE"@,
        ) && i32_of(settings["RSTICK_DEADZONE"@]) is None,
        settings.contains_key("RSTICK_DEADZONE"@) && i32_of(settings["RSTICK_DEADZONE"@]) is None ==> first_error(settings)
            is Some,
        first_error(settings) == Some(SettingsError::Axis16Bit) ==> settings.contains_key(
            "16_BIT_AXIS"@,
        ) && bool_of(settings["16_BIT_AXIS"@]) is None,
        settings.contains_key("16_BIT_AXIS"@) && bool_of(settings["16_BIT_AXIS"@]) is None ==> first_error(settings)
            is Some,
        first_error(settings) == Some(SettingsError::Stadia) ==> settings.contains_key(
            "STADIA"@,
        ) && bool_of(settings["STADIA"@]) is None,
        settings.contains_key("STADIA"@) && bool_of(settings["STADIA"@]) is None ==> first_error(settings)
            is Some,
        first_error(settings) == Some(SettingsError::ChainOnly) ==> settings.contains_key(
            "CHAIN_ONLY"@,
        ) && bool_of(settings["CHAIN_ONLY"@]) is None,
        settings.contains_key("CHAIN_ONLY"@) && bool_of(settings["CHAIN_ONLY"@]) is None ==> first_error(settings)
            is Some,
        first_error(settings) == Some(SettingsError::InvertCursorAxis) ==> settings.contains_key(
            "INVERT_CURSOR_AXIS"@,
        ) && bool_of(settings["INVERT_CURSOR_AXIS"@]) is None,
        settings.contains_key("INVERT_CURSOR_AXIS"@) && bool_of(settings["INVERT_CURSOR_AXIS"@]) is None ==> first_error(settings)
            is Some,
        first_error(settings) == Some(SettingsError::InvertScrollAxis) ==> settings.contains_key(
            "INVERT_SCROLL_AXIS"@,
        ) && bool_of(settings["INVERT_SCROLL_AXIS"@]) is None,
        settings.contains_key("INVERT_SCROLL_AXIS"@) && bool_of(settings["INVERT_SCROLL_AXIS"@]) is None ==> first_error(settings)
            is Some,
        first_error(settings) == Some(SettingsError::CursorSpeed) ==> settings.contains_key(
            "CURSOR_SPEED"@,
        ) && i32_of(settings["CURSOR_SPEED"@]) is None,
        settings.contains_key("CURSOR_SPEED"@) && i32_of(settings["CURSOR_SPEED"@]) is None ==> first_error(settings)
            is Some,
        first_error(settings) == Some(SettingsError::ScrollSpeed) ==> settings.contains_key(
            "SCROLL_SPEED"@,
        ) && i32_of(settings["SCROLL_SPEED"@]) is None,
        settings.contains_key("SCROLL_SPEED"@) && i32_of(settings["SCROLL_SPEED"@]) is None ==> first_error(settings)
            is Some,
        first_error(settings) == Some(SettingsError::LayoutSwitcher) ==> settings.contains_key(
            "LAYOUT_SWITCHER"@,
        ) && switcher_of(settings["LAYOUT_SWITCHER"@]) is None,
        settings.contains_key("LAYOUT_SWITCHER"@) && switcher_of(settings["LAYOUT_SWITCHER"@]) is None ==> first_error(settings)
            is Some,
        first_error(settings) == Some(SettingsError::NotifyLayoutSwitch) ==> settings.contains_key(
            "NOTIFY_LAYOUT_SWITCH"@,
        ) && bool_of(settings["NOTIFY_LAYOUT_SWITCH"@]) is None,
        settings.contains_key("NOTIFY_LAYOUT_SWITCH"@) && bool_of(settings["NOTIFY_LAYOUT_SWITCH"@]) is None ==> first_error(settings)
            is Some,
        first_error(settings) == Some(SettingsError::CursorWhenPaused) ==> settings.contains_key(
            "CURSOR_WHEN_PAUSED"@,
        ) && bool_of(settings["CURSOR_WHEN_PAUSED"@]) is None,
        settings.contains_key("CURSOR_WHEN_PAUSED"@) && bool_of(settings["CURSOR_WHEN_PAUSED"@]) is None ==> first_error(settings)
            is Some,
{
    lemma_defaults();
}

/// A layout switcher is a key, with the keys before it to be held: as it is
/// written, in any order.
pub proof fn law_layout_switcher_is_its_keys(names: Seq<Seq<char>>, key: Seq<char>, e: Event)
    requires
        !key.contains('-'),
        forall|i: int|
            0 <= i < names.len() ==> !(#[trigger] names[i]).contains('-') && key_of_name(names[i])
                is Some,
    ensures
        ({
            let r = switcher_of(crate::parse::dashed(names) + key);
            &&& r is Some <==> key_of_name(key) is Some
            &&& r matches Some((trigger, held)) ==> {
                &&& key_of_name(key) matches Some(k) && trigger == Event::Key(k)
                &&& crate::order::ascending::<Event>(held)
                &&& held.contains(e) <==> exists|i: int|
                    0 <= i < names.len() && (key_of_name(#[trigger] names[i]) matches Some(k)
                        && e == Event::Key(k))
            }
        }),
{
    let front = crate::parse::dashed(names);
    let s = front + key;
    lemma_keys_named_all(names, e);
    if names.len() == 0 {
        assert(s =~= key);
        assert forall|j: int| -1 < j < s.len() implies #[trigger] s[j] != '-' by {
            assert(key.contains(key[j]));
        }
        if s.len() > 0 {
            lemma_cut_last(s, '-', -1);
        }
        assert(!Seq::<Event>::empty().contains(e));
    } else {
        let at = front.len() - 1;
        assert(front[at] == '-');
        assert forall|j: int| at < j < s.len() implies #[trigger] s[j] != '-' by {
            assert(s[j] == key[j - front.len()]);
            assert(key.contains(key[j - front.len()]));
        }
        lemma_cut_last(s, '-', at);
        assert(s.take(at) =~= front.drop_last());
        assert(s.skip(at + 1) =~= key);
        crate::parse::lemma_pieces_of_dashed(names);
        crate::order::lemma_arrange::<Event>(keys_named(names)->0);
    }
}

proof fn lemma_keys_named_all(names: Seq<Seq<char>>, e: Event)
    requires
        forall|i: int| 0 <= i < names.len() ==> key_of_name(#[trigger] names[i]) is Some,
    ensures
        keys_named(names) matches Some(keys) && (keys.contains(e) <==> exists|i: int|
            0 <= i < names.len() && (key_of_name(#[trigger] names[i]) matches Some(k) && e
                == Event::Key(k))),
    decreases names.len(),
{
    if names.len() > 0 {
        let init = names.drop_last();
        assert forall|i: int| 0 <= i < init.len() implies key_of_name(#[trigger] init[i])
            is Some by {
            assert(init[i] == names[i]);
        }
        lemma_keys_named_all(init, e);
        assert(names[names.len() - 1] == names.last());
        assert forall|j: int| 0 <= j < init.len() implies #[trigger] init[j] == names[j] by {}
        assert forall|j: int| 0 <= j < init.len() implies #[trigger] names[j] == init[j] by {}
        let before = keys_named(init)->0;
        let last = Event::Key(key_of_name(names.last())->0);
        let all = before.push(last);
        assert(all[before.len() as int] == last);
        if before.contains(e) {
            let i = choose|i: int| 0 <= i < before.len() && before[i] == e;
            assert(all[i] == e);
        }
        if all.contains(e) && e != last {
            let i = choose|i: int| 0 <= i < all.len() && all[i] == e;
            assert(before[i] == e);
        }
    }
}

} // verus!
