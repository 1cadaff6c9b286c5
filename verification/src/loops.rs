//! What goes on while nothing is pressed: sticks and held keys that move the
//! pointer, layouts, commands, and what is told to the display.

use crate::axes::{RawEvent, EV_KEY, EV_REL};
use crate::config::DoubleclickTrigger;
use crate::event::{same_events, Event};
use crate::reader::stick_loop_active;
use crate::settings::{Settings, Stick};
use crate::text::{
    chars_of, decimal, joined, joined3, number_text, part, same_text, starts, starts_with, text_in,
    trimmed, trimmed_text,
};
use vstd::prelude::*;

verus! {

/// What is moved.
#[derive(Debug, Clone, Copy, PartialEq, Eq, Structural)]
pub enum Motion {
    Cursor,
    Scroll,
}

/// How a stick's function is written in settings.
pub open spec fn motion_word(m: Motion) -> Seq<char> {
    match m {
        Motion::Cursor => "cursor"@,
        Motion::Scroll => "scroll"@,
    }
}

/// The codes of the relative axes: sideways, then up and down.
pub open spec fn motion_codes(m: Motion) -> (u16, u16) {
    match m {
        Motion::Cursor => (0, 1),
        Motion::Scroll => (12, 11),
    }
}

// ── Sticks ───────────────────────────────────────────────────────────────────

/// Which of the sticks moves what: the left one where both are set to. None
/// where neither is, or where the stick is set to no speed.
pub open spec fn moving_stick(s: Settings, m: Motion) -> Option<bool> {
    if s.lstick.function@ == motion_word(m) {
        if s.lstick.sensitivity != 0 {
            Some(true)
        } else {
            None
        }
    } else if s.rstick.function@ == motion_word(m) {
        if s.rstick.sensitivity != 0 {
            Some(false)
        } else {
            None
        }
    } else {
        None
    }
}

/// Which of the sticks moves what: true for the left one.
pub fn stick_for(s: &Settings, m: Motion) -> (r: Option<bool>)
    ensures
        r == moving_stick(*s, m),
{
    let word: &str = match m {
        Motion::Cursor => "cursor",
        Motion::Scroll => "scroll",
    };
    if same_text(s.lstick.function.as_str(), word) {
        if s.lstick.sensitivity != 0 {
            Some(true)
        } else {
            None
        }
    } else if same_text(s.rstick.function.as_str(), word) {
        if s.rstick.sensitivity != 0 {
            Some(false)
        } else {
            None
        }
    } else {
        None
    }
}

/// Whether a stick off its centre moves anything now: what has to be held is
/// held, and nothing suspends the sticks.
pub open spec fn stick_acts(
    position: (i32, i32),
    activation: Seq<Event>,
    held: Seq<Event>,
    active: bool,
) -> bool {
    (position.0 != 0 || position.1 != 0) && (activation.len() == 0 || activation == held) && active
}

/// The events that a stick sends.
pub open spec fn stick_events(
    position: (i32, i32),
    invert: bool,
    m: Motion,
    acts: bool,
) -> Seq<RawEvent> {
    let (x, y) = if invert {
        (-position.0, -position.1)
    } else {
        (position.0 as int, position.1 as int)
    };
    if acts {
        seq![
            RawEvent { kind: EV_REL, code: motion_codes(m).0, value: x as i32 },
            RawEvent { kind: EV_REL, code: motion_codes(m).1, value: y as i32 },
        ]
    } else {
        Seq::empty()
    }
}

/// The events that a stick sends at one tick.
pub open spec fn stick_output(
    settings: Settings,
    m: Motion,
    left: bool,
    position: (i32, i32),
    held: Seq<Event>,
    paused: bool,
    gaming_mode: bool,
) -> Seq<RawEvent> {
    let stick = if left {
        settings.lstick
    } else {
        settings.rstick
    };
    let active = !gaming_mode && (!paused || settings.cursor_when_paused);
    stick_events(
        position,
        if m == Motion::Cursor {
            settings.invert_cursor_axis
        } else {
            settings.invert_scroll_axis
        },
        m,
        stick_acts(position, stick.activation_modifiers@, held, active),
    )
}

fn codes(m: Motion) -> (r: (u16, u16))
    ensures
        r == motion_codes(m),
{
    match m {
        Motion::Cursor => (0, 1),
        Motion::Scroll => (12, 11),
    }
}

/// The events that a stick sends at one tick.
pub fn stick_tick(
    settings: &Settings,
    m: Motion,
    left: bool,
    position: (i32, i32),
    held: &Vec<Event>,
    paused: bool,
    gaming_mode: bool,
) -> (r: Vec<RawEvent>)
    requires
        position.0 > i32::MIN,
        position.1 > i32::MIN,
    ensures
        r@ == stick_output(*settings, m, left, position, held@, paused, gaming_mode),
{
    let stick: &Stick = if left {
        &settings.lstick
    } else {
        &settings.rstick
    };
    let invert: bool = match m {
        Motion::Cursor => settings.invert_cursor_axis,
        Motion::Scroll => settings.invert_scroll_axis,
    };
    let mut r: Vec<RawEvent> = Vec::new();
    let wanted: bool = stick.activation_modifiers.len() == 0 || same_events(
        &stick.activation_modifiers,
        held,
    );
    if (position.0 != 0 || position.1 != 0) && wanted && stick_loop_active(
        paused,
        settings.cursor_when_paused,
        gaming_mode,
    ) {
        let (x, y): (i32, i32) = if invert {
            (-position.0, -position.1)
        } else {
            (position.0, position.1)
        };
        let (cx, cy): (u16, u16) = codes(m);
        r.push(RawEvent { kind: EV_REL, code: cx, value: x });
        r.push(RawEvent { kind: EV_REL, code: cy, value: y });
    }
    r
}

// ── Keys that move ───────────────────────────────────────────────────────────

/// The events that held keys send at a speed.
pub open spec fn key_events(direction: (i32, i32), speed: i32, m: Motion, active: bool) -> Seq<
    RawEvent,
> {
    let x = RawEvent { kind: EV_REL, code: motion_codes(m).0, value: (direction.0 * speed) as i32 };
    let y = RawEvent { kind: EV_REL, code: motion_codes(m).1, value: (direction.1 * speed) as i32 };
    if !active {
        Seq::empty()
    } else if direction.0 != 0 && direction.1 != 0 {
        seq![x, y]
    } else if direction.0 != 0 {
        seq![x]
    } else if direction.1 != 0 {
        seq![y]
    } else {
        Seq::empty()
    }
}

/// The events that held keys send at one tick, at the speed that they have
/// reached.
pub fn key_tick(
    direction: (i32, i32),
    speed: i32,
    m: Motion,
    paused: bool,
    cursor_when_paused: bool,
) -> (r: Vec<RawEvent>)
    requires
        i32::MIN <= direction.0 * speed <= i32::MAX,
        i32::MIN <= direction.1 * speed <= i32::MAX,
    ensures
        r@ == key_events(direction, speed, m, !paused || cursor_when_paused),
{
    let mut r: Vec<RawEvent> = Vec::new();
    if !paused || cursor_when_paused {
        let (cx, cy): (u16, u16) = codes(m);
        if direction.0 != 0 {
            r.push(RawEvent { kind: EV_REL, code: cx, value: direction.0 * speed });
        }
        if direction.1 != 0 {
            r.push(RawEvent { kind: EV_REL, code: cy, value: direction.1 * speed });
        }
    }
    assert(r@ =~= key_events(direction, speed, m, !paused || cursor_when_paused));
    r
}

// ── Layouts ──────────────────────────────────────────────────────────────────

/// The layout after one, around the circle of four.
pub open spec fn after_layout(layout: u16) -> u16 {
    if layout == 3 {
        0
    } else {
        (layout + 1) as u16
    }
}

/// The layout that switching leads to: the next that is there, around the
/// circle and, where no other is, back to the same.
pub open spec fn next_layout(layout: u16, there: Seq<bool>) -> u16 {
    let a = after_layout(layout);
    let b = after_layout(a);
    let c = after_layout(b);
    if there[a as int] {
        a
    } else if there[b as int] {
        b
    } else if there[c as int] {
        c
    } else {
        layout
    }
}

/// Switch to the next layout that is there.
pub fn change_active_layout(layout: u16, there: &[bool; 4]) -> (r: u16)
    requires
        layout < 4,
        there@[0] || there@[1] || there@[2] || there@[3],
    ensures
        r == next_layout(layout, there@),
        r < 4,
        there@[r as int],
{
    let mut r: u16 = layout;
    let mut n: u16 = 0;
    loop
        invariant_except_break
            r == (layout + n) % 4,
        invariant
            layout < 4,
            there@[0] || there@[1] || there@[2] || there@[3],
            n <= 3,
            n > 0 ==> !there@[(layout + 1) % 4],
            n > 1 ==> !there@[(layout + 2) % 4],
            n > 2 ==> !there@[(layout + 3) % 4],
        ensures
            r == next_layout(layout, there@),
            r < 4,
            there@[r as int],
        decreases 4 - n,
    {
        r = if r == 3 {
            0
        } else {
            r + 1
        };
        if there[r as usize] {
            break;
        }
        n = n + 1;
    }
    r
}

/// Where two or more layouts are there, switching leads away from the one that
/// is active.
pub proof fn law_switching_leads_on(layout: u16, other: u16, there: Seq<bool>)
    requires
        layout < 4,
        other < 4,
        other != layout,
        there.len() == 4,
        there[layout as int],
        there[other as int],
    ensures
        next_layout(layout, there) != layout,
{
}

/// Switching four times or fewer comes by every layout that is there: none is
/// left out.
pub proof fn law_switching_reaches_all(layout: u16, goal: u16, there: Seq<bool>)
    requires
        layout < 4,
        goal < 4,
        there.len() == 4,
        there[layout as int],
        there[goal as int],
    ensures
        ({
            let a = next_layout(layout, there);
            let b = next_layout(a, there);
            let c = next_layout(b, there);
            let d = next_layout(c, there);
            a == goal || b == goal || c == goal || d == goal
        }),
{
}

/// The command that tells of a switch.
pub open spec fn layout_notice(layout: u16) -> Seq<char> {
    "notify-send -t 500 'Makima' 'Switching to layout "@ + decimal(layout as nat) + "'"@
}

/// The command that tells of a switch.
pub fn layout_notice_command(layout: u16) -> (r: String)
    ensures
        r@ == layout_notice(layout),
{
    joined3(
        "notify-send -t 500 'Makima' 'Switching to layout ",
        number_text(layout as u64).as_str(),
        "'",
    )
}

// ── Commands ─────────────────────────────────────────────────────────────────

/// How a command is run.
#[derive(Debug, Clone, PartialEq, Eq)]
pub struct Launch {
    pub program: String,
    pub arguments: Vec<String>,
    /// Whether it has to be cut loose from this process first.
    pub detached: bool,
}

/// How a command is run for a user: as that user under `sudo`, else in the
/// user's own session. Without a user it is not run.
pub open spec fn is_launch(
    l: Option<Launch>,
    sudo_user: Option<Seq<char>>,
    user: Option<Seq<char>>,
    command: Seq<char>,
) -> bool {
    match sudo_user {
        Some(u) => l matches Some(l) && {
            &&& l.program@ == "runuser"@
            &&& crate::order::views(l.arguments@) == seq![u, "-c"@, command]
            &&& l.detached
        },
        None => match user {
            Some(u) => l matches Some(l) && {
                &&& l.program@ == "sh"@
                &&& crate::order::views(l.arguments@) == seq![
                    "-c"@,
                    "systemd-run --wait --pipe --user --machine "@ + u
                        + "@ -- systemd-run --user --scope "@ + command,
                ]
                &&& !l.detached
            },
            None => l is None,
        },
    }
}

/// How a command is run for a user.
pub fn launch(sudo_user: &Option<String>, user: &Option<String>, command: &str) -> (r: Option<
    Launch,
>)
    ensures
        is_launch(r, text_in(*sudo_user), text_in(*user), command@),
{
    let mut arguments: Vec<String> = Vec::new();
    match sudo_user {
        Some(u) => {
            arguments.push(u.clone());
            arguments.push("-c".to_owned());
            arguments.push(command.to_owned());
            assert(crate::order::views(arguments@) =~= seq![u@, "-c"@, command@]);
            Some(Launch { program: "runuser".to_owned(), arguments, detached: true })
        },
        None => match user {
            Some(u) => {
                let head: String = joined3(
                    "systemd-run --wait --pipe --user --machine ",
                    u.as_str(),
                    "@ -- systemd-run --user --scope ",
                );
                let line: String = joined(head.as_str(), command);
                arguments.push("-c".to_owned());
                arguments.push(line);
                assert(crate::order::views(arguments@) =~= seq!["-c"@, line@]);
                Some(Launch { program: "sh".to_owned(), arguments, detached: false })
            },
            None => None,
        },
    }
}

// ── Control ──────────────────────────────────────────────────────────────────

/// What a line on the control socket asks for: to be paused or not.
pub open spec fn pause_request(line: Seq<char>) -> Option<bool> {
    if trimmed(line) == "pause"@ {
        Some(true)
    } else if trimmed(line) == "resume"@ {
        Some(false)
    } else {
        None
    }
}

/// What a word on the control socket asks for.
pub fn control_word(word: &str) -> (r: Option<bool>)
    ensures
        r == (if word@ == "pause"@ {
            Some(true)
        } else if word@ == "resume"@ {
            Some(false)
        } else {
            None
        }),
{
    if same_text(word, "pause") {
        Some(true)
    } else if same_text(word, "resume") {
        Some(false)
    } else {
        None
    }
}

/// What a line on the control socket asks for.
pub fn control_command(line: &str) -> (r: Option<bool>)
    ensures
        r == pause_request(line@),
{
    control_word(trimmed_text(line).as_str())
}

/// When the key that switches gaming mode was pressed last, in microseconds;
/// none where no press waits for a second one.
#[derive(Debug, Clone, Copy, PartialEq, Eq)]
pub struct TriggerRun {
    pub pressed_at: Option<u64>,
}

/// Whether an event is a press of a trigger's key.
pub open spec fn presses(trigger: Option<DoubleclickTrigger>, event: RawEvent) -> bool {
    &&& trigger is Some
    &&& event.kind == EV_KEY
    &&& event.code == trigger->0.key.0
    &&& event.value == 1
}

/// Whether a press at `now` is the second of two: the first was no more than
/// the trigger's milliseconds ago.
pub open spec fn is_second(pressed_at: Option<u64>, now: u64, ms: u64) -> bool {
    pressed_at is Some && pressed_at->0 <= now && (now - pressed_at->0) / 1000 <= ms
}

impl TriggerRun {
    /// No press yet.
    pub fn new() -> (r: TriggerRun)
        ensures
            r.pressed_at is None,
    {
        TriggerRun { pressed_at: None }
    }

    /// Take an event. True where it completes a double click, by which gaming
    /// mode is switched. The next press is then a first one again.
    pub fn take(
        &mut self,
        trigger: &Option<DoubleclickTrigger>,
        event: RawEvent,
        now: u64,
    ) -> (r: bool)
        ensures
            r == (presses(*trigger, event) && is_second(
                old(self).pressed_at,
                now,
                trigger->0.ms,
            )),
            final(self).pressed_at == (if !presses(*trigger, event) {
                old(self).pressed_at
            } else if r {
                None
            } else {
                Some(now)
            }),
    {
        match trigger {
            Some(t) => {
                if event.kind != EV_KEY || event.code != t.key.0 || event.value != 1 {
                    return false;
                }
                let second: bool = match self.pressed_at {
                    Some(at) => at <= now && (now - at) / 1000 <= t.ms,
                    None => false,
                };
                self.pressed_at = if second {
                    None
                } else {
                    Some(now)
                };
                second
            },
            None => false,
        }
    }
}

/// The names of the configurations that are stacked up: the base, and the one
/// on top of it without the base's name in front.
pub open spec fn stack_names(name: Seq<char>, base: Seq<char>) -> Seq<Seq<char>> {
    let prefix = base + "::"@;
    if name == base {
        seq![base]
    } else if starts(name, prefix) {
        seq![base, name.skip(prefix.len() as int)]
    } else {
        seq![base, name]
    }
}

/// The names of the configurations that are stacked up.
pub fn config_stack(name: &str, base: &str) -> (r: Vec<String>)
    ensures
        crate::order::views(r@) == stack_names(name@, base@),
{
    let mut r: Vec<String> = Vec::new();
    r.push(base.to_owned());
    if same_text(name, base) {
        assert(crate::order::views(r@) =~= seq![base@]);
        return r;
    }
    let prefix: String = joined(base, "::");
    if starts_with(name, prefix.as_str()) {
        let n: usize = chars_of(name).len();
        let k: usize = chars_of(prefix.as_str()).len();
        let rest: String = part(name, k, n);
        r.push(rest);
        assert(rest@ =~= name@.skip(prefix@.len() as int));
        assert(crate::order::views(r@) =~= seq![base@, rest@]);
    } else {
        r.push(name.to_owned());
        assert(crate::order::views(r@) =~= seq![base@, name@]);
    }
    r
}

// ── Letting go ───────────────────────────────────────────────────────────────

/// The events that let go of the keys among what is held.
pub open spec fn letting_go_of(held: Seq<Event>) -> Seq<RawEvent>
    decreases held.len(),
{
    if held.len() == 0 {
        Seq::empty()
    } else {
        let before = letting_go_of(held.drop_last());
        match held.last() {
            Event::Key(k) => before.push(RawEvent { kind: EV_KEY, code: k.0, value: 0 }),
            _ => before,
        }
    }
}

/// The events that let go of the keys among what is held.
pub fn release_held_modifiers(held: &Vec<Event>) -> (r: Vec<RawEvent>)
    ensures
        r@ == letting_go_of(held@),
{
    let mut r: Vec<RawEvent> = Vec::new();
    let mut i: usize = 0;
    assert(held@.take(0) =~= Seq::<Event>::empty());
    while i < held.len()
        invariant
            i <= held@.len(),
            r@ == letting_go_of(held@.take(i as int)),
        decreases held@.len() - i,
    {
        if let Event::Key(k) = held[i] {
            r.push(RawEvent { kind: EV_KEY, code: k.0, value: 0 });
        }
        i = i + 1;
        proof {
            assert(held@.take(i as int).drop_last() =~= held@.take(i - 1));
            assert(held@.take(i as int).last() == held@[i - 1]);
        }
    }
    assert(held@.take(i as int) =~= held@);
    r
}

// ── Laws ─────────────────────────────────────────────────────────────────────

/// A stick off its centre moves by how far it is tilted, sideways and up and
/// down, and the opposite way where its axis is inverted: the pointer on the
/// axes 0 and 1, the wheels on 12 and 11. It rests while a game has it, while
/// paused unless a setting says otherwise, and while anything but what it waits
/// for is held.
pub proof fn law_stick_moves_by_its_tilt(
    settings: Settings,
    m: Motion,
    left: bool,
    position: (i32, i32),
    held: Seq<Event>,
    paused: bool,
    gaming_mode: bool,
)
    requires
        position.0 > i32::MIN,
        position.1 > i32::MIN,
    ensures
        ({
            let out = stick_output(settings, m, left, position, held, paused, gaming_mode);
            let waits = if left {
                settings.lstick.activation_modifiers@
            } else {
                settings.rstick.activation_modifiers@
            };
            let inverted = match m {
                Motion::Cursor => settings.invert_cursor_axis,
                Motion::Scroll => settings.invert_scroll_axis,
            };
            let rests = gaming_mode || (paused && !settings.cursor_when_paused) || (waits.len() > 0
                && waits != held) || position == (0i32, 0i32);
            &&& rests ==> out.len() == 0
            &&& !rests ==> {
                &&& out.len() == 2
                &&& out[0].kind == 2 && out[1].kind == 2
                &&& m == Motion::Cursor ==> out[0].code == 0 && out[1].code == 1
                &&& m == Motion::Scroll ==> out[0].code == 12 && out[1].code == 11
                &&& inverted ==> out[0].value + position.0 == 0 && out[1].value + position.1 == 0
                &&& !inverted ==> out[0].value == position.0 && out[1].value == position.1
            }
        }),
{
}

/// A stick with the function moves, the left one before the right one; one
/// without speed moves nothing, and does not leave its turn to the other.
pub proof fn law_left_stick_goes_first(s: Settings, m: Motion)
    ensures
        ({
            let word = match m {
                Motion::Cursor => "cursor"@,
                Motion::Scroll => "scroll"@,
            };
            let l = s.lstick.function@ == word;
            let r = s.rstick.function@ == word;
            &&& moving_stick(s, m) == Some(true) <==> l && s.lstick.sensitivity != 0
            &&& moving_stick(s, m) == Some(false) <==> !l && r && s.rstick.sensitivity != 0
        }),
{
}

/// Held keys move by their speed in each direction that they point to, on the
/// axes 0 and 1 or the wheels 12 and 11, and in no other.
pub proof fn law_held_keys_move_by_their_speed(
    direction: (i32, i32),
    speed: i32,
    m: Motion,
    active: bool,
)
    requires
        i32::MIN <= direction.0 * speed <= i32::MAX,
        i32::MIN <= direction.1 * speed <= i32::MAX,
    ensures
        ({
            let out = key_events(direction, speed, m, active);
            let (sideways, upright): (u16, u16) = match m {
                Motion::Cursor => (0, 1),
                Motion::Scroll => (12, 11),
            };
            let x = RawEvent { kind: 2, code: sideways, value: (direction.0 * speed) as i32 };
            let y = RawEvent { kind: 2, code: upright, value: (direction.1 * speed) as i32 };
            &&& out.contains(x) <==> active && direction.0 != 0
            &&& out.contains(y) <==> active && direction.1 != 0
            &&& forall|i: int| 0 <= i < out.len() ==> #[trigger] out[i] == x || out[i] == y
            &&& out.len() <= 2
            &&& out.len() == 2 ==> out[0] == x && out[1] == y
        }),
{
    let out = key_events(direction, speed, m, active);
    if out.len() > 0 {
        assert(out.contains(out[0]));
    }
    if out.len() > 1 {
        assert(out.contains(out[1]));
    }
}

/// Switching leads to the next layout that is there: those between are not.
pub proof fn law_switching_skips_only_missing_layouts(layout: u16, there: Seq<bool>, steps: int)
    requires
        layout < 4,
        there.len() == 4,
        1 <= steps <= 4,
        there[(layout + steps) % 4],
        forall|n: int| 1 <= n < steps ==> !there[#[trigger] ((layout + n) % 4)],
    ensures
        next_layout(layout, there) == (layout + steps) % 4,
{
    if steps > 1 {
        assert(!there[(layout + 1) % 4]);
    }
    if steps > 2 {
        assert(!there[(layout + 2) % 4]);
    }
    if steps > 3 {
        assert(!there[(layout + 3) % 4]);
    }
}

/// Letting go lets go of every key that is held, in the order in which they are
/// held, once for each, and sends nothing else.
pub proof fn law_letting_go_releases_every_key(held: Seq<Event>)
    ensures
        ({
            let out = letting_go_of(held);
            &&& forall|k: crate::event::Key| #[trigger]
                held.contains(Event::Key(k)) ==> out.contains(
                    RawEvent { kind: 1, code: k.0, value: 0 },
                )
            &&& forall|i: int|
                0 <= i < out.len() ==> (#[trigger] out[i]).kind == 1 && out[i].value == 0
                    && held.contains(Event::Key(crate::event::Key(out[i].code)))
            &&& out.len() <= held.len()
            &&& (forall|i: int| 0 <= i < held.len() ==> #[trigger] held[i] is Key) ==> out.len()
                == held.len() && forall|i: int|
                0 <= i < held.len() ==> Event::Key(crate::event::Key((#[trigger] out[i]).code))
                    == held[i]
        }),
    decreases held.len(),
{
    if held.len() > 0 {
        let init = held.drop_last();
        let last = held.last();
        law_letting_go_releases_every_key(init);
        let before = letting_go_of(init);
        let out = letting_go_of(held);
        assert(held[held.len() - 1] == last);
        assert forall|k: crate::event::Key| #[trigger]
            held.contains(Event::Key(k)) implies out.contains(
            RawEvent { kind: 1, code: k.0, value: 0 },
        ) by {
            let e = RawEvent { kind: 1, code: k.0, value: 0 };
            if last == Event::Key(k) {
                assert(out[before.len() as int] == e);
            } else {
                let j = choose|j: int| 0 <= j < held.len() && held[j] == Event::Key(k);
                assert(init[j] == Event::Key(k));
                assert(init.contains(Event::Key(k)));
                let x = choose|x: int| 0 <= x < before.len() && before[x] == e;
                assert(out[x] == e);
            }
        }
        assert forall|i: int| 0 <= i < out.len() implies (#[trigger] out[i]).kind == 1
            && out[i].value == 0 && held.contains(
            Event::Key(crate::event::Key(out[i].code)),
        ) by {
            if i < before.len() {
                assert(out[i] == before[i]);
                let e = Event::Key(crate::event::Key(before[i].code));
                let j = choose|j: int| 0 <= j < init.len() && init[j] == e;
                assert(held[j] == e);
            } else {
                assert(held[held.len() - 1] == Event::Key(crate::event::Key(out[i].code)));
            }
        }
        if forall|i: int| 0 <= i < held.len() ==> #[trigger] held[i] is Key {
            assert forall|i: int| 0 <= i < init.len() implies #[trigger] init[i] is Key by {
                assert(init[i] == held[i]);
            }
            assert(last is Key);
            assert forall|i: int| 0 <= i < held.len() implies Event::Key(
                crate::event::Key((#[trigger] out[i]).code),
            ) == held[i] by {
                if i < init.len() {
                    assert(out[i] == before[i]);
                    assert(init[i] == held[i]);
                }
            }
        }
    }
}

/// A stack is told by its names: the base comes first, and the name on top is
/// what stands behind the base's name and two colons. From the two the whole
/// name can be put together again.
pub proof fn law_stack_names_tell_the_whole(name: Seq<char>, base: Seq<char>, top: Seq<char>)
    ensures
        stack_names(base, base) == seq![base],
        stack_names(base + "::"@ + top, base) == seq![base, top],
        stack_names(name, base)[0] == base,
        stack_names(name, base).len() == 1 <==> name == base,
        stack_names(name, base).len() == 2 ==> name == stack_names(name, base)[1] || name == base
            + "::"@ + stack_names(name, base)[1],
{
    reveal_strlit("::");
    let prefix = base + "::"@;
    let whole = prefix + top;
    assert(whole.len() > base.len());
    assert(whole.take(prefix.len() as int) =~= prefix);
    assert(starts(whole, prefix));
    assert(whole.skip(prefix.len() as int) =~= top);
    if name != base && starts(name, prefix) {
        assert(name =~= prefix + name.skip(prefix.len() as int));
    }
}

/// A double click is two presses of the trigger's key, the second no later than
/// the trigger allows, to the millisecond. Nothing but a press of that key
/// counts, and without a trigger nothing does.
pub proof fn law_double_click_is_two_quick_presses(
    trigger: Option<DoubleclickTrigger>,
    event: RawEvent,
    first: u64,
    now: u64,
)
    ensures
        trigger is None ==> !presses(trigger, event),
        trigger matches Some(t) ==> (presses(trigger, event) <==> event.kind == 1 && event.code
            == t.key.0 && event.value == 1),
        trigger matches Some(t) ==> !is_second(None, now, t.ms),
        trigger matches Some(t) ==> (is_second(Some(first), now, t.ms) <==> first <= now < first
            + 1000 * (t.ms + 1)),
{
}

/// A line on the control socket asks for a pause by its one word, whatever
/// blanks stand around it.
pub proof fn law_control_words(line: Seq<char>)
    ensures
        pause_request(line) == Some(true) <==> trimmed(line) == "pause"@,
        pause_request(line) == Some(false) <==> trimmed(line) == "resume"@,
{
    reveal_strlit("pause");
    reveal_strlit("resume");
    assert("pause"@.len() != "resume"@.len());
}

/// The notice of a layout names it by its number.
pub proof fn law_notice_names_the_layout(layout: u16)
    ensures
        layout_notice(layout) == "notify-send -t 500 'Makima' 'Switching to layout "@ + decimal(
            layout as nat,
        ) + seq!['\''],
{
    reveal_strlit("'");
    assert("'"@ =~= seq!['\'']);
}

/// A command is run as the user behind `sudo`, and goes on by itself; else as
/// the user of the session, in a scope of its own; and without any user it is
/// not run.
pub proof fn law_commands_run_as_the_user(
    l: Option<Launch>,
    user: Seq<char>,
    other: Option<Seq<char>>,
    command: Seq<char>,
)
    ensures
        is_launch(l, Some(user), other, command) ==> (l matches Some(x) && x.program@ == "runuser"@
            && x.arguments@.len() == 3 && x.arguments@[0]@ == user && x.arguments@[1]@ == "-c"@
            && x.arguments@[2]@ == command && x.detached),
        is_launch(l, None, Some(user), command) ==> (l matches Some(x) && x.program@ == "sh"@
            && x.arguments@.len() == 2 && x.arguments@[0]@ == "-c"@ && x.arguments@[1]@
            == "systemd-run --wait --pipe --user --machine "@ + user
            + "@ -- systemd-run --user --scope "@ + command && !x.detached),
        is_launch(l, None, None, command) ==> l is None,
{
    if let Some(x) = l {
        let v = crate::order::views(x.arguments@);
        assert(v.len() == x.arguments@.len());
        assert forall|i: int| 0 <= i < x.arguments@.len() implies v[i]
            == #[trigger] x.arguments@[i]@ by {}
    }
}

} // verus!
