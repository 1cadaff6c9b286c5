//! Input events: kernel keys, axes, and the movements they can stand for.

use crate::keyed::{Label, Replicate};
use crate::order::Ordered;
use crate::text::{joined3, same_text};
use std::str::FromStr;
use vstd::prelude::*;

verus! {

/// A key or button of the kernel's input layer, by its event code.
#[derive(Debug, Clone, Copy, PartialEq, Eq, PartialOrd, Ord, Hash, Structural)]
pub struct Key(pub u16);

/// Left shift.
pub const KEY_LEFTSHIFT: u16 = 42;

/// Left control.
pub const KEY_LEFTCTRL: u16 = 29;

/// Left alt.
pub const KEY_LEFTALT: u16 = 56;

/// Right shift.
pub const KEY_RIGHTSHIFT: u16 = 54;

/// Right control.
pub const KEY_RIGHTCTRL: u16 = 97;

/// Right alt.
pub const KEY_RIGHTALT: u16 = 100;

/// Left meta.
pub const KEY_LEFTMETA: u16 = 125;

/// The quick-access button of a Steam Deck.
pub const BTN_BASE: u16 = 0x126;

/// The upper left back paddle.
pub const BTN_GRIPL: u16 = 0x224;

/// The upper right back paddle.
pub const BTN_GRIPR: u16 = 0x225;

/// The lower left back paddle.
pub const BTN_GRIPL2: u16 = 0x226;

/// The lower right back paddle.
pub const BTN_GRIPR2: u16 = 0x227;

/// A direction of a pad, stick, wheel or trigger.
#[allow(non_camel_case_types)]
#[derive(Debug, Clone, Copy, PartialEq, Eq, PartialOrd, Ord, Hash, Structural)]
pub enum Axis {
    BTN_DPAD_UP,
    BTN_DPAD_DOWN,
    BTN_DPAD_LEFT,
    BTN_DPAD_RIGHT,
    LSTICK_UP,
    LSTICK_DOWN,
    LSTICK_LEFT,
    LSTICK_RIGHT,
    RSTICK_UP,
    RSTICK_DOWN,
    RSTICK_LEFT,
    RSTICK_RIGHT,
    SCROLL_WHEEL_UP,
    SCROLL_WHEEL_DOWN,
    ABS_Z,
    ABS_RZ,
    ABS_WHEEL_CW,
    ABS_WHEEL_CCW,
}

/// A pointer direction.
#[allow(non_camel_case_types)]
#[derive(Debug, Clone, Copy, PartialEq, Eq, PartialOrd, Ord, Hash, Structural)]
pub enum Cursor {
    CURSOR_UP,
    CURSOR_DOWN,
    CURSOR_LEFT,
    CURSOR_RIGHT,
}

/// A scroll direction.
#[allow(non_camel_case_types)]
#[derive(Debug, Clone, Copy, PartialEq, Eq, PartialOrd, Ord, Hash, Structural)]
pub enum Scroll {
    SCROLL_UP,
    SCROLL_DOWN,
    SCROLL_LEFT,
    SCROLL_RIGHT,
}

/// A relative movement that a button can be bound to.
#[derive(Debug, Clone, Copy, PartialEq, Eq, PartialOrd, Ord, Hash, Structural)]
pub enum Relative {
    Cursor(Cursor),
    Scroll(Scroll),
}

/// What a binding can be triggered by.
#[derive(Debug, Clone, Copy, PartialEq, Eq, PartialOrd, Ord, Hash, Structural)]
pub enum Event {
    Axis(Axis),
    Key(Key),
    Hold,
}

impl View for Key {
    type V = Key;

    open spec fn view(&self) -> Key {
        *self
    }
}

impl View for Event {
    type V = Event;

    open spec fn view(&self) -> Event {
        *self
    }
}

impl View for Relative {
    type V = Relative;

    open spec fn view(&self) -> Relative {
        *self
    }
}

impl Replicate for Relative {
    fn replicate(&self) -> (r: Self) {
        *self
    }
}

impl Replicate for Vec<Key> {
    fn replicate(&self) -> (r: Self) {
        copy_list(self)
    }
}

/// A copy of a list of plain values.
pub fn copy_list<T: Copy>(v: &Vec<T>) -> (r: Vec<T>)
    ensures
        r@ == v@,
{
    let mut r: Vec<T> = Vec::new();
    let mut i: usize = 0;
    while i < v.len()
        invariant
            i <= v@.len(),
            r@ == v@.take(i as int),
        decreases v@.len() - i,
    {
        r.push(v[i]);
        i = i + 1;
        assert(v@.take(i as int) =~= v@.take(i - 1).push(v@[i - 1]));
    }
    assert(v@.take(i as int) =~= v@);
    r
}

/// Whether `list` holds `e`.
pub fn has_event(list: &Vec<Event>, e: Event) -> (r: bool)
    ensures
        r == list@.contains(e),
{
    let mut i: usize = 0;
    while i < list.len()
        invariant
            i <= list@.len(),
            forall|j: int| 0 <= j < i ==> #[trigger] list@[j] != e,
        decreases list@.len() - i,
    {
        if list[i] == e {
            return true;
        }
        i = i + 1;
    }
    false
}

/// Whether two lists of events are the same.
pub fn same_events(a: &Vec<Event>, b: &Vec<Event>) -> (r: bool)
    ensures
        r == (a@ == b@),
{
    if a.len() != b.len() {
        return false;
    }
    let mut i: usize = 0;
    while i < a.len()
        invariant
            i <= a@.len(),
            a@.len() == b@.len(),
            forall|j: int| 0 <= j < i ==> #[trigger] a@[j] == b@[j],
        decreases a@.len() - i,
    {
        if a[i] != b[i] {
            return false;
        }
        i = i + 1;
    }
    assert(a@ =~= b@);
    true
}

// ── Order ────────────────────────────────────────────────────────────────────

/// The place of an axis in the order of axes.
pub open spec fn axis_rank(a: Axis) -> int {
    match a {
        Axis::BTN_DPAD_UP => 0,
        Axis::BTN_DPAD_DOWN => 1,
        Axis::BTN_DPAD_LEFT => 2,
        Axis::BTN_DPAD_RIGHT => 3,
        Axis::LSTICK_UP => 4,
        Axis::LSTICK_DOWN => 5,
        Axis::LSTICK_LEFT => 6,
        Axis::LSTICK_RIGHT => 7,
        Axis::RSTICK_UP => 8,
        Axis::RSTICK_DOWN => 9,
        Axis::RSTICK_LEFT => 10,
        Axis::RSTICK_RIGHT => 11,
        Axis::SCROLL_WHEEL_UP => 12,
        Axis::SCROLL_WHEEL_DOWN => 13,
        Axis::ABS_Z => 14,
        Axis::ABS_RZ => 15,
        Axis::ABS_WHEEL_CW => 16,
        Axis::ABS_WHEEL_CCW => 17,
    }
}

/// The place of an event in the order of events: axes, then keys by code, then
/// the hold marker.
pub open spec fn event_rank(e: Event) -> int {
    match e {
        Event::Axis(a) => axis_rank(a),
        Event::Key(k) => 18 + k.0 as int,
        Event::Hold => 65554,
    }
}

fn axis_number(a: Axis) -> (r: u32)
    ensures
        r == axis_rank(a),
        r < 18,
{
    match a {
        Axis::BTN_DPAD_UP => 0,
        Axis::BTN_DPAD_DOWN => 1,
        Axis::BTN_DPAD_LEFT => 2,
        Axis::BTN_DPAD_RIGHT => 3,
        Axis::LSTICK_UP => 4,
        Axis::LSTICK_DOWN => 5,
        Axis::LSTICK_LEFT => 6,
        Axis::LSTICK_RIGHT => 7,
        Axis::RSTICK_UP => 8,
        Axis::RSTICK_DOWN => 9,
        Axis::RSTICK_LEFT => 10,
        Axis::RSTICK_RIGHT => 11,
        Axis::SCROLL_WHEEL_UP => 12,
        Axis::SCROLL_WHEEL_DOWN => 13,
        Axis::ABS_Z => 14,
        Axis::ABS_RZ => 15,
        Axis::ABS_WHEEL_CW => 16,
        Axis::ABS_WHEEL_CCW => 17,
    }
}

fn event_number(e: Event) -> (r: u32)
    ensures
        r == event_rank(e),
{
    match e {
        Event::Axis(a) => axis_number(a),
        Event::Key(k) => 18 + k.0 as u32,
        Event::Hold => 65554,
    }
}

/// Different events have different places in the order.
pub proof fn lemma_event_rank_injective(a: Event, b: Event)
    requires
        event_rank(a) == event_rank(b),
    ensures
        a == b,
{
}

impl Label for Event {
    fn same(&self, other: &Self) -> (r: bool) {
        *self == *other
    }

    fn replicate_label(&self) -> (r: Self) {
        *self
    }
}

impl Ordered for Event {
    open spec fn before(a: Event, b: Event) -> bool {
        event_rank(a) < event_rank(b)
    }

    proof fn before_irreflexive(a: Event) {
    }

    proof fn before_transitive(a: Event, b: Event, c: Event) {
    }

    proof fn before_total(a: Event, b: Event) {
        if event_rank(a) == event_rank(b) {
            lemma_event_rank_injective(a, b);
        }
    }

    fn is_before(&self, other: &Self) -> (r: bool) {
        event_number(*self) < event_number(*other)
    }
}

/// A list of events in ascending order, each once.
pub open spec fn canonical(s: Seq<Event>) -> Seq<Event> {
    crate::order::arrange::<Event>(s)
}

/// A list of events in ascending order, each once.
pub fn canonical_list(v: &Vec<Event>) -> (r: Vec<Event>)
    ensures
        r@ == canonical(v@),
{
    let r: Vec<Event> = crate::order::arranged(v);
    assert(crate::order::views(v@) =~= v@);
    assert(crate::order::views(r@) =~= r@);
    r
}

// ── Names ────────────────────────────────────────────────────────────────────

/// The axis of a name, where the name is one of an axis that can be bound.
pub open spec fn axis_of_name(s: Seq<char>) -> Option<Axis> {
    if s == "LSTICK_UP"@ {
        Some(Axis::LSTICK_UP)
    } else if s == "LSTICK_DOWN"@ {
        Some(Axis::LSTICK_DOWN)
    } else if s == "LSTICK_LEFT"@ {
        Some(Axis::LSTICK_LEFT)
    } else if s == "LSTICK_RIGHT"@ {
        Some(Axis::LSTICK_RIGHT)
    } else if s == "RSTICK_UP"@ {
        Some(Axis::RSTICK_UP)
    } else if s == "RSTICK_DOWN"@ {
        Some(Axis::RSTICK_DOWN)
    } else if s == "RSTICK_LEFT"@ {
        Some(Axis::RSTICK_LEFT)
    } else if s == "RSTICK_RIGHT"@ {
        Some(Axis::RSTICK_RIGHT)
    } else if s == "SCROLL_WHEEL_UP"@ {
        Some(Axis::SCROLL_WHEEL_UP)
    } else if s == "SCROLL_WHEEL_DOWN"@ {
        Some(Axis::SCROLL_WHEEL_DOWN)
    } else if s == "ABS_Z"@ {
        Some(Axis::ABS_Z)
    } else if s == "ABS_RZ"@ {
        Some(Axis::ABS_RZ)
    } else if s == "ABS_WHEEL_CW"@ {
        Some(Axis::ABS_WHEEL_CW)
    } else if s == "ABS_WHEEL_CCW"@ {
        Some(Axis::ABS_WHEEL_CCW)
    } else {
        None
    }
}

/// The name of an axis.
pub open spec fn axis_name(a: Axis) -> Seq<char> {
    match a {
        Axis::BTN_DPAD_UP => "BTN_DPAD_UP"@,
        Axis::BTN_DPAD_DOWN => "BTN_DPAD_DOWN"@,
        Axis::BTN_DPAD_LEFT => "BTN_DPAD_LEFT"@,
        Axis::BTN_DPAD_RIGHT => "BTN_DPAD_RIGHT"@,
        Axis::LSTICK_UP => "LSTICK_UP"@,
        Axis::LSTICK_DOWN => "LSTICK_DOWN"@,
        Axis::LSTICK_LEFT => "LSTICK_LEFT"@,
        Axis::LSTICK_RIGHT => "LSTICK_RIGHT"@,
        Axis::RSTICK_UP => "RSTICK_UP"@,
        Axis::RSTICK_DOWN => "RSTICK_DOWN"@,
        Axis::RSTICK_LEFT => "RSTICK_LEFT"@,
        Axis::RSTICK_RIGHT => "RSTICK_RIGHT"@,
        Axis::SCROLL_WHEEL_UP => "SCROLL_WHEEL_UP"@,
        Axis::SCROLL_WHEEL_DOWN => "SCROLL_WHEEL_DOWN"@,
        Axis::ABS_Z => "ABS_Z"@,
        Axis::ABS_RZ => "ABS_RZ"@,
        Axis::ABS_WHEEL_CW => "ABS_WHEEL_CW"@,
        Axis::ABS_WHEEL_CCW => "ABS_WHEEL_CCW"@,
    }
}

impl Axis {
    /// The axis called `s`.
    pub fn from_name(s: &str) -> (r: Option<Axis>)
        ensures
            r == axis_of_name(s@),
    {
        if same_text(s, "LSTICK_UP") {
            Some(Axis::LSTICK_UP)
        } else if same_text(s, "LSTICK_DOWN") {
            Some(Axis::LSTICK_DOWN)
        } else if same_text(s, "LSTICK_LEFT") {
            Some(Axis::LSTICK_LEFT)
        } else if same_text(s, "LSTICK_RIGHT") {
            Some(Axis::LSTICK_RIGHT)
        } else if same_text(s, "RSTICK_UP") {
            Some(Axis::RSTICK_UP)
        } else if same_text(s, "RSTICK_DOWN") {
            Some(Axis::RSTICK_DOWN)
        } else if same_text(s, "RSTICK_LEFT") {
            Some(Axis::RSTICK_LEFT)
        } else if same_text(s, "RSTICK_RIGHT") {
            Some(Axis::RSTICK_RIGHT)
        } else if same_text(s, "SCROLL_WHEEL_UP") {
            Some(Axis::SCROLL_WHEEL_UP)
        } else if same_text(s, "SCROLL_WHEEL_DOWN") {
            Some(Axis::SCROLL_WHEEL_DOWN)
        } else if same_text(s, "ABS_Z") {
            Some(Axis::ABS_Z)
        } else if same_text(s, "ABS_RZ") {
            Some(Axis::ABS_RZ)
        } else if same_text(s, "ABS_WHEEL_CW") {
            Some(Axis::ABS_WHEEL_CW)
        } else if same_text(s, "ABS_WHEEL_CCW") {
            Some(Axis::ABS_WHEEL_CCW)
        } else {
            None
        }
    }

    /// What the axis is called.
    pub fn name(&self) -> (r: &'static str)
        ensures
            r@ == axis_name(*self),
    {
        match *self {
            Axis::BTN_DPAD_UP => "BTN_DPAD_UP",
            Axis::BTN_DPAD_DOWN => "BTN_DPAD_DOWN",
            Axis::BTN_DPAD_LEFT => "BTN_DPAD_LEFT",
            Axis::BTN_DPAD_RIGHT => "BTN_DPAD_RIGHT",
            Axis::LSTICK_UP => "LSTICK_UP",
            Axis::LSTICK_DOWN => "LSTICK_DOWN",
            Axis::LSTICK_LEFT => "LSTICK_LEFT",
            Axis::LSTICK_RIGHT => "LSTICK_RIGHT",
            Axis::RSTICK_UP => "RSTICK_UP",
            Axis::RSTICK_DOWN => "RSTICK_DOWN",
            Axis::RSTICK_LEFT => "RSTICK_LEFT",
            Axis::RSTICK_RIGHT => "RSTICK_RIGHT",
            Axis::SCROLL_WHEEL_UP => "SCROLL_WHEEL_UP",
            Axis::SCROLL_WHEEL_DOWN => "SCROLL_WHEEL_DOWN",
            Axis::ABS_Z => "ABS_Z",
            Axis::ABS_RZ => "ABS_RZ",
            Axis::ABS_WHEEL_CW => "ABS_WHEEL_CW",
            Axis::ABS_WHEEL_CCW => "ABS_WHEEL_CCW",
        }
    }
}

/// The movement of a name.
pub open spec fn relative_of_name(s: Seq<char>) -> Option<Relative> {
    if s == "CURSOR_UP"@ {
        Some(Relative::Cursor(Cursor::CURSOR_UP))
    } else if s == "CURSOR_DOWN"@ {
        Some(Relative::Cursor(Cursor::CURSOR_DOWN))
    } else if s == "CURSOR_LEFT"@ {
        Some(Relative::Cursor(Cursor::CURSOR_LEFT))
    } else if s == "CURSOR_RIGHT"@ {
        Some(Relative::Cursor(Cursor::CURSOR_RIGHT))
    } else if s == "SCROLL_UP"@ {
        Some(Relative::Scroll(Scroll::SCROLL_UP))
    } else if s == "SCROLL_DOWN"@ {
        Some(Relative::Scroll(Scroll::SCROLL_DOWN))
    } else if s == "SCROLL_LEFT"@ {
        Some(Relative::Scroll(Scroll::SCROLL_LEFT))
    } else if s == "SCROLL_RIGHT"@ {
        Some(Relative::Scroll(Scroll::SCROLL_RIGHT))
    } else {
        None
    }
}

/// How a movement is written out.
pub open spec fn relative_name(m: Relative) -> Seq<char> {
    match m {
        Relative::Cursor(Cursor::CURSOR_UP) => "Cursor(CURSOR_UP)"@,
        Relative::Cursor(Cursor::CURSOR_DOWN) => "Cursor(CURSOR_DOWN)"@,
        Relative::Cursor(Cursor::CURSOR_LEFT) => "Cursor(CURSOR_LEFT)"@,
        Relative::Cursor(Cursor::CURSOR_RIGHT) => "Cursor(CURSOR_RIGHT)"@,
        Relative::Scroll(Scroll::SCROLL_UP) => "Scroll(SCROLL_UP)"@,
        Relative::Scroll(Scroll::SCROLL_DOWN) => "Scroll(SCROLL_DOWN)"@,
        Relative::Scroll(Scroll::SCROLL_LEFT) => "Scroll(SCROLL_LEFT)"@,
        Relative::Scroll(Scroll::SCROLL_RIGHT) => "Scroll(SCROLL_RIGHT)"@,
    }
}

impl Relative {
    /// The movement called `s`.
    pub fn from_name(s: &str) -> (r: Option<Relative>)
        ensures
            r == relative_of_name(s@),
    {
        if same_text(s, "CURSOR_UP") {
            Some(Relative::Cursor(Cursor::CURSOR_UP))
        } else if same_text(s, "CURSOR_DOWN") {
            Some(Relative::Cursor(Cursor::CURSOR_DOWN))
        } else if same_text(s, "CURSOR_LEFT") {
            Some(Relative::Cursor(Cursor::CURSOR_LEFT))
        } else if same_text(s, "CURSOR_RIGHT") {
            Some(Relative::Cursor(Cursor::CURSOR_RIGHT))
        } else if same_text(s, "SCROLL_UP") {
            Some(Relative::Scroll(Scroll::SCROLL_UP))
        } else if same_text(s, "SCROLL_DOWN") {
            Some(Relative::Scroll(Scroll::SCROLL_DOWN))
        } else if same_text(s, "SCROLL_LEFT") {
            Some(Relative::Scroll(Scroll::SCROLL_LEFT))
        } else if same_text(s, "SCROLL_RIGHT") {
            Some(Relative::Scroll(Scroll::SCROLL_RIGHT))
        } else {
            None
        }
    }

    /// How the movement is written out.
    pub fn name(&self) -> (r: &'static str)
        ensures
            r@ == relative_name(*self),
    {
        match *self {
            Relative::Cursor(Cursor::CURSOR_UP) => "Cursor(CURSOR_UP)",
            Relative::Cursor(Cursor::CURSOR_DOWN) => "Cursor(CURSOR_DOWN)",
            Relative::Cursor(Cursor::CURSOR_LEFT) => "Cursor(CURSOR_LEFT)",
            Relative::Cursor(Cursor::CURSOR_RIGHT) => "Cursor(CURSOR_RIGHT)",
            Relative::Scroll(Scroll::SCROLL_UP) => "Scroll(SCROLL_UP)",
            Relative::Scroll(Scroll::SCROLL_DOWN) => "Scroll(SCROLL_DOWN)",
            Relative::Scroll(Scroll::SCROLL_LEFT) => "Scroll(SCROLL_LEFT)",
            Relative::Scroll(Scroll::SCROLL_RIGHT) => "Scroll(SCROLL_RIGHT)",
        }
    }
}

/// The event code that `evdev::Key::from_str` gives for a name.
pub uninterp spec fn evdev_key_code(name: Seq<char>) -> Option<u16>;

/// The text that `evdev::Key`'s `Debug` writes for an event code.
pub uninterp spec fn evdev_key_text(code: u16) -> Seq<char>;

/// Calls `evdev::Key::from_str`, which searches the crate's table of key names.
/// The result is named, not described: the table is several hundred lines long.
#[verifier::external_body]
fn evdev_from_str(name: &str) -> (r: Option<u16>)
    ensures
        r == evdev_key_code(name@),
{
    evdev::Key::from_str(name).ok().map(|k| k.code())
}

/// Formats an `evdev::Key` with its `Debug`, which writes the name of the code
/// from the crate's table. The result is named, not described.
#[verifier::external_body]
fn evdev_debug(code: u16) -> (r: String)
    ensures
        r@ == evdev_key_text(code),
{
    format!("{:?}", evdev::Key::new(code))
}

/// The code of a back paddle's name. The names are newer than the key table.
pub open spec fn grip_of_name(s: Seq<char>) -> Option<u16> {
    if s == "BTN_GRIPL"@ {
        Some(BTN_GRIPL)
    } else if s == "BTN_GRIPR"@ {
        Some(BTN_GRIPR)
    } else if s == "BTN_GRIPL2"@ {
        Some(BTN_GRIPL2)
    } else if s == "BTN_GRIPR2"@ {
        Some(BTN_GRIPR2)
    } else {
        None
    }
}

/// The name of a back paddle.
pub open spec fn grip_name(code: u16) -> Option<Seq<char>> {
    if code == BTN_GRIPL {
        Some("BTN_GRIPL"@)
    } else if code == BTN_GRIPR {
        Some("BTN_GRIPR"@)
    } else if code == BTN_GRIPL2 {
        Some("BTN_GRIPL2"@)
    } else if code == BTN_GRIPR2 {
        Some("BTN_GRIPR2"@)
    } else {
        None
    }
}

/// The key of a name: a back paddle, or what the key table says.
pub open spec fn key_of_name(s: Seq<char>) -> Option<Key> {
    key_of_name_given(s, evdev_key_code(s))
}

/// The key of a name, given what the key table says of the name.
pub open spec fn key_of_name_given(s: Seq<char>, table: Option<u16>) -> Option<Key> {
    match grip_of_name(s) {
        Some(code) => Some(Key(code)),
        None => match table {
            Some(code) => Some(Key(code)),
            None => None,
        },
    }
}

/// How a key is written out: a back paddle's name, or what the key table says.
pub open spec fn key_name(k: Key) -> Seq<char> {
    match grip_name(k.0) {
        Some(s) => s,
        None => evdev_key_text(k.0),
    }
}

impl Key {
    /// The key called `s`, given what the key table says of the name.
    pub fn from_table(s: &str, table: Option<u16>) -> (r: Option<Key>)
        ensures
            r == key_of_name_given(s@, table),
    {
        if same_text(s, "BTN_GRIPL") {
            Some(Key(BTN_GRIPL))
        } else if same_text(s, "BTN_GRIPR") {
            Some(Key(BTN_GRIPR))
        } else if same_text(s, "BTN_GRIPL2") {
            Some(Key(BTN_GRIPL2))
        } else if same_text(s, "BTN_GRIPR2") {
            Some(Key(BTN_GRIPR2))
        } else {
            match table {
                Some(code) => Some(Key(code)),
                None => None,
            }
        }
    }

    /// The key called `s`.
    pub fn from_name(s: &str) -> (r: Option<Key>)
        ensures
            r == key_of_name(s@),
    {
        Key::from_table(s, evdev_from_str(s))
    }

    /// How the key is written out.
    pub fn name(&self) -> (r: String)
        ensures
            r@ == key_name(*self),
    {
        if self.0 == BTN_GRIPL {
            "BTN_GRIPL".to_owned()
        } else if self.0 == BTN_GRIPR {
            "BTN_GRIPR".to_owned()
        } else if self.0 == BTN_GRIPL2 {
            "BTN_GRIPL2".to_owned()
        } else if self.0 == BTN_GRIPR2 {
            "BTN_GRIPR2".to_owned()
        } else {
            evdev_debug(self.0)
        }
    }
}

/// The event of a name: an axis first, then a key.
pub open spec fn event_of_name(s: Seq<char>) -> Option<Event> {
    match axis_of_name(s) {
        Some(a) => Some(Event::Axis(a)),
        None => match key_of_name(s) {
            Some(k) => Some(Event::Key(k)),
            None => None,
        },
    }
}

/// How an event is written out.
pub open spec fn event_name(e: Event) -> Seq<char> {
    match e {
        Event::Key(k) => key_name(k),
        Event::Axis(a) => axis_name(a),
        Event::Hold => "Hold"@,
    }
}

/// The event called `name`, without a word about it.
pub fn event_from_name(name: &str) -> (r: Option<Event>)
    ensures
        r == event_of_name(name@),
{
    match Axis::from_name(name) {
        Some(a) => Some(Event::Axis(a)),
        None => match Key::from_name(name) {
            Some(k) => Some(Event::Key(k)),
            None => None,
        },
    }
}

/// The event called `name`. Callers report a name that is not known.
pub fn parse_event_name(name: &str) -> (r: Option<Event>)
    ensures
        r == event_of_name(name@),
{
    event_from_name(name)
}

/// How an event is written out.
pub fn event_to_str(event: &Event) -> (r: String)
    ensures
        r@ == event_name(*event),
{
    match *event {
        Event::Key(k) => k.name(),
        Event::Axis(a) => a.name().to_owned(),
        Event::Hold => "Hold".to_owned(),
    }
}

// ── Combos ───────────────────────────────────────────────────────────────────

/// A trigger together with what must be held for a binding to apply.
#[derive(Debug, Clone, PartialEq, Eq, Hash)]
pub struct Combo {
    pub trigger: Event,
    pub held: Vec<Event>,
}

impl View for Combo {
    type V = (Event, Seq<Event>);

    open spec fn view(&self) -> (Event, Seq<Event>) {
        (self.trigger, self.held@)
    }
}

impl Combo {
    pub fn new(trigger: Event, held: Vec<Event>) -> (r: Combo)
        ensures
            r@ == (trigger, held@),
    {
        Combo { trigger, held }
    }

    /// The combo of `trigger` with nothing held.
    pub fn plain(trigger: Event) -> (r: Combo)
        ensures
            r@ == (trigger, Seq::<Event>::empty()),
    {
        let r = Combo { trigger, held: Vec::new() };
        assert(r.held@ =~= Seq::<Event>::empty());
        r
    }

    /// The combo of `trigger` with a copy of `held`.
    pub fn of(trigger: Event, held: &Vec<Event>) -> (r: Combo)
        ensures
            r@ == (trigger, held@),
    {
        Combo { trigger, held: copy_list(held) }
    }
}

impl Label for Combo {
    fn same(&self, other: &Self) -> (r: bool) {
        self.trigger == other.trigger && same_events(&self.held, &other.held)
    }

    fn replicate_label(&self) -> (r: Self) {
        Combo { trigger: self.trigger, held: copy_list(&self.held) }
    }
}

impl Ordered for Combo {
    /// By trigger, then by what is held.
    open spec fn before(a: (Event, Seq<Event>), b: (Event, Seq<Event>)) -> bool {
        if a.0 == b.0 {
            crate::order::list_before::<Event>(a.1, b.1)
        } else {
            event_rank(a.0) < event_rank(b.0)
        }
    }

    proof fn before_irreflexive(a: (Event, Seq<Event>)) {
        crate::order::lemma_list_before_irreflexive::<Event>(a.1);
    }

    proof fn before_transitive(
        a: (Event, Seq<Event>),
        b: (Event, Seq<Event>),
        c: (Event, Seq<Event>),
    ) {
        if a.0 == b.0 && b.0 == c.0 {
            crate::order::lemma_list_before_transitive::<Event>(a.1, b.1, c.1);
        }
    }

    proof fn before_total(a: (Event, Seq<Event>), b: (Event, Seq<Event>)) {
        if a.0 == b.0 {
            crate::order::lemma_list_before_total::<Event>(a.1, b.1);
        } else if event_rank(a.0) == event_rank(b.0) {
            lemma_event_rank_injective(a.0, b.0);
        }
    }

    fn is_before(&self, other: &Self) -> (r: bool) {
        assert(crate::order::views(self.held@) =~= self.held@);
        assert(crate::order::views(other.held@) =~= other.held@);
        if self.trigger == other.trigger {
            crate::order::list_is_before(&self.held, &other.held)
        } else {
            self.trigger.is_before(&other.trigger)
        }
    }
}

/// How a combo is written out: what is held, then the trigger, joined by `-`.
pub open spec fn combo_name(trigger: Event, held: Seq<Event>) -> Seq<char>
    decreases held.len(),
{
    if held.len() == 0 {
        event_name(trigger)
    } else {
        event_name(held[0]) + "-"@ + combo_name(trigger, held.drop_first())
    }
}

/// How a combo is written out.
pub fn combo_text(c: &Combo) -> (r: String)
    ensures
        r@ == combo_name(c.trigger, c.held@),
{
    let mut r: String = event_to_str(&c.trigger);
    let mut i: usize = c.held.len();
    assert(c.held@.skip(i as int) =~= Seq::<Event>::empty());
    while i > 0
        invariant
            i <= c.held@.len(),
            r@ == combo_name(c.trigger, c.held@.skip(i as int)),
        decreases i,
    {
        i = i - 1;
        r = joined3(event_to_str(&c.held[i]).as_str(), "-", r.as_str());
        assert(c.held@.skip(i as int).drop_first() =~= c.held@.skip(i + 1));
    }
    assert(c.held@.skip(0) =~= c.held@);
    r
}

// ── Laws: names ──────────────────────────────────────────────────────────────

/// Every movement has exactly one name.
pub proof fn law_movements_have_names()
    ensures
        forall|s: Seq<char>| #[trigger]
            relative_of_name(s) == Some(Relative::Cursor(Cursor::CURSOR_UP)) <==> s == "CURSOR_UP"@,
        forall|s: Seq<char>| #[trigger]
            relative_of_name(s) == Some(Relative::Cursor(Cursor::CURSOR_DOWN)) <==> s == "CURSOR_DOWN"@,
        forall|s: Seq<char>| #[trigger]
            relative_of_name(s) == Some(Relative::Cursor(Cursor::CURSOR_LEFT)) <==> s == "CURSOR_LEFT"@,
        forall|s: Seq<char>| #[trigger]
            relative_of_name(s) == Some(Relative::Cursor(Cursor::CURSOR_RIGHT)) <==> s == "CURSOR_RIGHT"@,
        forall|s: Seq<char>| #[trigger]
            relative_of_name(s) == Some(Relative::Scroll(Scroll::SCROLL_UP)) <==> s == "SCROLL_UP"@,
        forall|s: Seq<char>| #[trigger]
            relative_of_name(s) == Some(Relative::Scroll(Scroll::SCROLL_DOWN)) <==> s == "SCROLL_DOWN"@,
        forall|s: Seq<char>| #[trigger]
            relative_of_name(s) == Some(Relative::Scroll(Scroll::SCROLL_LEFT)) <==> s == "SCROLL_LEFT"@,
        forall|s: Seq<char>| #[trigger]
            relative_of_name(s) == Some(Relative::Scroll(Scroll::SCROLL_RIGHT)) <==> s == "SCROLL_RIGHT"@,
{
    reveal_strlit("CURSOR_UP");
    reveal_strlit("CURSOR_DOWN");
    reveal_strlit("CURSOR_LEFT");
    reveal_strlit("CURSOR_RIGHT");
    reveal_strlit("SCROLL_UP");
    reveal_strlit("SCROLL_DOWN");
    reveal_strlit("SCROLL_LEFT");
    reveal_strlit("SCROLL_RIGHT");
    assert("CURSOR_UP"@.len() != "CURSOR_DOWN"@.len());
    assert("CURSOR_UP"@.len() != "CURSOR_LEFT"@.len());
    assert("CURSOR_UP"@.len() != "CURSOR_RIGHT"@.len());
    assert("CURSOR_UP"@[0] != "SCROLL_UP"@[0]);
    assert("CURSOR_UP"@.len() != "SCROLL_DOWN"@.len());
    assert("CURSOR_UP"@.len() != "SCROLL_LEFT"@.len());
    assert("CURSOR_UP"@.len() != "SCROLL_RIGHT"@.len());
    assert("CURSOR_DOWN"@[7] != "CURSOR_LEFT"@[7]);
    assert("CURSOR_DOWN"@.len() != "CURSOR_RIGHT"@.len());
    assert("CURSOR_DOWN"@.len() != "SCROLL_UP"@.len());
    assert("CURSOR_DOWN"@[0] != "SCROLL_DOWN"@[0]);
    assert("CURSOR_DOWN"@[0] != "SCROLL_LEFT"@[0]);
    assert("CURSOR_DOWN"@.len() != "SCROLL_RIGHT"@.len());
    assert("CURSOR_LEFT"@.len() != "CURSOR_RIGHT"@.len());
    assert("CURSOR_LEFT"@.len() != "SCROLL_UP"@.len());
    assert("CURSOR_LEFT"@[0] != "SCROLL_DOWN"@[0]);
    assert("CURSOR_LEFT"@[0] != "SCROLL_LEFT"@[0]);
    assert("CURSOR_LEFT"@.len() != "SCROLL_RIGHT"@.len());
    assert("CURSOR_RIGHT"@.len() != "SCROLL_UP"@.len());
    assert("CURSOR_RIGHT"@.len() != "SCROLL_DOWN"@.len());
    assert("CURSOR_RIGHT"@.len() != "SCROLL_LEFT"@.len());
    assert("CURSOR_RIGHT"@[0] != "SCROLL_RIGHT"@[0]);
    assert("SCROLL_UP"@.len() != "SCROLL_DOWN"@.len());
    assert("SCROLL_UP"@.len() != "SCROLL_LEFT"@.len());
    assert("SCROLL_UP"@.len() != "SCROLL_RIGHT"@.len());
    assert("SCROLL_DOWN"@[7] != "SCROLL_LEFT"@[7]);
    assert("SCROLL_DOWN"@.len() != "SCROLL_RIGHT"@.len());
    assert("SCROLL_LEFT"@.len() != "SCROLL_RIGHT"@.len());
}

/// Every axis that can be bound has exactly one name, and is written out by it.
pub proof fn law_axes_have_names()
    ensures
        forall|s: Seq<char>| #[trigger]
            axis_of_name(s) == Some(Axis::LSTICK_UP) <==> s == "LSTICK_UP"@,
        axis_name(Axis::LSTICK_UP) == "LSTICK_UP"@,
        forall|s: Seq<char>| #[trigger]
            axis_of_name(s) == Some(Axis::LSTICK_DOWN) <==> s == "LSTICK_DOWN"@,
        axis_name(Axis::LSTICK_DOWN) == "LSTICK_DOWN"@,
        forall|s: Seq<char>| #[trigger]
            axis_of_name(s) == Some(Axis::LSTICK_LEFT) <==> s == "LSTICK_LEFT"@,
        axis_name(Axis::LSTICK_LEFT) == "LSTICK_LEFT"@,
        forall|s: Seq<char>| #[trigger]
            axis_of_name(s) == Some(Axis::LSTICK_RIGHT) <==> s == "LSTICK_RIGHT"@,
        axis_name(Axis::LSTICK_RIGHT) == "LSTICK_RIGHT"@,
        forall|s: Seq<char>| #[trigger]
            axis_of_name(s) == Some(Axis::RSTICK_UP) <==> s == "RSTICK_UP"@,
        axis_name(Axis::RSTICK_UP) == "RSTICK_UP"@,
        forall|s: Seq<char>| #[trigger]
            axis_of_name(s) == Some(Axis::RSTICK_DOWN) <==> s == "RSTICK_DOWN"@,
        axis_name(Axis::RSTICK_DOWN) == "RSTICK_DOWN"@,
        forall|s: Seq<char>| #[trigger]
            axis_of_name(s) == Some(Axis::RSTICK_LEFT) <==> s == "RSTICK_LEFT"@,
        axis_name(Axis::RSTICK_LEFT) == "RSTICK_LEFT"@,
        forall|s: Seq<char>| #[trigger]
            axis_of_name(s) == Some(Axis::RSTICK_RIGHT) <==> s == "RSTICK_RIGHT"@,
        axis_name(Axis::RSTICK_RIGHT) == "RSTICK_RIGHT"@,
        forall|s: Seq<char>| #[trigger]
            axis_of_name(s) == Some(Axis::SCROLL_WHEEL_UP) <==> s == "SCROLL_WHEEL_UP"@,
        axis_name(Axis::SCROLL_WHEEL_UP) == "SCROLL_WHEEL_UP"@,
        forall|s: Seq<char>| #[trigger]
            axis_of_name(s) == Some(Axis::SCROLL_WHEEL_DOWN) <==> s == "SCROLL_WHEEL_DOWN"@,
        axis_name(Axis::SCROLL_WHEEL_DOWN) == "SCROLL_WHEEL_DOWN"@,
        forall|s: Seq<char>| #[trigger]
            axis_of_name(s) == Some(Axis::ABS_Z) <==> s == "ABS_Z"@,
        axis_name(Axis::ABS_Z) == "ABS_Z"@,
        forall|s: Seq<char>| #[trigger]
            axis_of_name(s) == Some(Axis::ABS_RZ) <==> s == "ABS_RZ"@,
        axis_name(Axis::ABS_RZ) == "ABS_RZ"@,
        forall|s: Seq<char>| #[trigger]
            axis_of_name(s) == Some(Axis::ABS_WHEEL_CW) <==> s == "ABS_WHEEL_CW"@,
        axis_name(Axis::ABS_WHEEL_CW) == "ABS_WHEEL_CW"@,
        forall|s: Seq<char>| #[trigger]
            axis_of_name(s) == Some(Axis::ABS_WHEEL_CCW) <==> s == "ABS_WHEEL_CCW"@,
        axis_name(Axis::ABS_WHEEL_CCW) == "ABS_WHEEL_CCW"@,
{
    reveal_strlit("LSTICK_UP");
    reveal_strlit("LSTICK_DOWN");
    reveal_strlit("LSTICK_LEFT");
    reveal_strlit("LSTICK_RIGHT");
    reveal_strlit("RSTICK_UP");
    reveal_strlit("RSTICK_DOWN");
    reveal_strlit("RSTICK_LEFT");
    reveal_strlit("RSTICK_RIGHT");
    reveal_strlit("SCROLL_WHEEL_UP");
    reveal_strlit("SCROLL_WHEEL_DOWN");
    reveal_strlit("ABS_Z");
    reveal_strlit("ABS_RZ");
    reveal_strlit("ABS_WHEEL_CW");
    reveal_strlit("ABS_WHEEL_CCW");
    assert("LSTICK_UP"@.len() != "LSTICK_DOWN"@.len());
    assert("LSTICK_UP"@.len() != "LSTICK_LEFT"@.len());
    assert("LSTICK_UP"@.len() != "LSTICK_RIGHT"@.len());
    assert("LSTICK_UP"@[0] != "RSTICK_UP"@[0]);
    assert("LSTICK_UP"@.len() != "RSTICK_DOWN"@.len());
    assert("LSTICK_UP"@.len() != "RSTICK_LEFT"@.len());
    assert("LSTICK_UP"@.len() != "RSTICK_RIGHT"@.len());
    assert("LSTICK_UP"@.len() != "SCROLL_WHEEL_UP"@.len());
    assert("LSTICK_UP"@.len() != "SCROLL_WHEEL_DOWN"@.len());
    assert("LSTICK_UP"@.len() != "ABS_Z"@.len());
    assert("LSTICK_UP"@.len() != "ABS_RZ"@.len());
    assert("LSTICK_UP"@.len() != "ABS_WHEEL_CW"@.len());
    assert("LSTICK_UP"@.len() != "ABS_WHEEL_CCW"@.len());
    assert("LSTICK_DOWN"@[7] != "LSTICK_LEFT"@[7]);
    assert("LSTICK_DOWN"@.len() != "LSTICK_RIGHT"@.len());
    assert("LSTICK_DOWN"@.len() != "RSTICK_UP"@.len());
    assert("LSTICK_DOWN"@[0] != "RSTICK_DOWN"@[0]);
    assert("LSTICK_DOWN"@[0] != "RSTICK_LEFT"@[0]);
    assert("LSTICK_DOWN"@.len() != "RSTICK_RIGHT"@.len());
    assert("LSTICK_DOWN"@.len() != "SCROLL_WHEEL_UP"@.len());
    assert("LSTICK_DOWN"@.len() != "SCROLL_WHEEL_DOWN"@.len());
    assert("LSTICK_DOWN"@.len() != "ABS_Z"@.len());
    assert("LSTICK_DOWN"@.len() != "ABS_RZ"@.len());
    assert("LSTICK_DOWN"@.len() != "ABS_WHEEL_CW"@.len());
    assert("LSTICK_DOWN"@.len() != "ABS_WHEEL_CCW"@.len());
    assert("LSTICK_LEFT"@.len() != "LSTICK_RIGHT"@.len());
    assert("LSTICK_LEFT"@.len() != "RSTICK_UP"@.len());
    assert("LSTICK_LEFT"@[0] != "RSTICK_DOWN"@[0]);
    assert("LSTICK_LEFT"@[0] != "RSTICK_LEFT"@[0]);
    assert("LSTICK_LEFT"@.len() != "RSTICK_RIGHT"@.len());
    assert("LSTICK_LEFT"@.len() != "SCROLL_WHEEL_UP"@.len());
    assert("LSTICK_LEFT"@.len() != "SCROLL_WHEEL_DOWN"@.len());
    assert("LSTICK_LEFT"@.len() != "ABS_Z"@.len());
    assert("LSTICK_LEFT"@.len() != "ABS_RZ"@.len());
    assert("LSTICK_LEFT"@.len() != "ABS_WHEEL_CW"@.len());
    assert("LSTICK_LEFT"@.len() != "ABS_WHEEL_CCW"@.len());
    assert("LSTICK_RIGHT"@.len() != "RSTICK_UP"@.len());
    assert("LSTICK_RIGHT"@.len() != "RSTICK_DOWN"@.len());
    assert("LSTICK_RIGHT"@.len() != "RSTICK_LEFT"@.len());
    assert("LSTICK_RIGHT"@[0] != "RSTICK_RIGHT"@[0]);
    assert("LSTICK_RIGHT"@.len() != "SCROLL_WHEEL_UP"@.len());
    assert("LSTICK_RIGHT"@.len() != "SCROLL_WHEEL_DOWN"@.len());
    assert("LSTICK_RIGHT"@.len() != "ABS_Z"@.len());
    assert("LSTICK_RIGHT"@.len() != "ABS_RZ"@.len());
    assert("LSTICK_RIGHT"@[0] != "ABS_WHEEL_CW"@[0]);
    assert("LSTICK_RIGHT"@.len() != "ABS_WHEEL_CCW"@.len());
    assert("RSTICK_UP"@.len() != "RSTICK_DOWN"@.len());
    assert("RSTICK_UP"@.len() != "RSTICK_LEFT"@.len());
    assert("RSTICK_UP"@.len() != "RSTICK_RIGHT"@.len());
    assert("RSTICK_UP"@.len() != "SCROLL_WHEEL_UP"@.len());
    assert("RSTICK_UP"@.len() != "SCROLL_WHEEL_DOWN"@.len());
    assert("RSTICK_UP"@.len() != "ABS_Z"@.len());
    assert("RSTICK_UP"@.len() != "ABS_RZ"@.len());
    assert("RSTICK_UP"@.len() != "ABS_WHEEL_CW"@.len());
    assert("RSTICK_UP"@.len() != "ABS_WHEEL_CCW"@.len());
    assert("RSTICK_DOWN"@[7] != "RSTICK_LEFT"@[7]);
    assert("RSTICK_DOWN"@.len() != "RSTICK_RIGHT"@.len());
    assert("RSTICK_DOWN"@.len() != "SCROLL_WHEEL_UP"@.len());
    assert("RSTICK_DOWN"@.len() != "SCROLL_WHEEL_DOWN"@.len());
    assert("RSTICK_DOWN"@.len() != "ABS_Z"@.len());
    assert("RSTICK_DOWN"@.len() != "ABS_RZ"@.len());
    assert("RSTICK_DOWN"@.len() != "ABS_WHEEL_CW"@.len());
    assert("RSTICK_DOWN"@.len() != "ABS_WHEEL_CCW"@.len());
    assert("RSTICK_LEFT"@.len() != "RSTICK_RIGHT"@.len());
    assert("RSTICK_LEFT"@.len() != "SCROLL_WHEEL_UP"@.len());
    assert("RSTICK_LEFT"@.len() != "SCROLL_WHEEL_DOWN"@.len());
    assert("RSTICK_LEFT"@.len() != "ABS_Z"@.len());
    assert("RSTICK_LEFT"@.len() != "ABS_RZ"@.len());
    assert("RSTICK_LEFT"@.len() != "ABS_WHEEL_CW"@.len());
    assert("RSTICK_LEFT"@.len() != "ABS_WHEEL_CCW"@.len());
    assert("RSTICK_RIGHT"@.len() != "SCROLL_WHEEL_UP"@.len());
    assert("RSTICK_RIGHT"@.len() != "SCROLL_WHEEL_DOWN"@.len());
    assert("RSTICK_RIGHT"@.len() != "ABS_Z"@.len());
    assert("RSTICK_RIGHT"@.len() != "ABS_RZ"@.len());
    assert("RSTICK_RIGHT"@[0] != "ABS_WHEEL_CW"@[0]);
    assert("RSTICK_RIGHT"@.len() != "ABS_WHEEL_CCW"@.len());
    assert("SCROLL_WHEEL_UP"@.len() != "SCROLL_WHEEL_DOWN"@.len());
    assert("SCROLL_WHEEL_UP"@.len() != "ABS_Z"@.len());
    assert("SCROLL_WHEEL_UP"@.len() != "ABS_RZ"@.len());
    assert("SCROLL_WHEEL_UP"@.len() != "ABS_WHEEL_CW"@.len());
    assert("SCROLL_WHEEL_UP"@.len() != "ABS_WHEEL_CCW"@.len());
    assert("SCROLL_WHEEL_DOWN"@.len() != "ABS_Z"@.len());
    assert("SCROLL_WHEEL_DOWN"@.len() != "ABS_RZ"@.len());
    assert("SCROLL_WHEEL_DOWN"@.len() != "ABS_WHEEL_CW"@.len());
    assert("SCROLL_WHEEL_DOWN"@.len() != "ABS_WHEEL_CCW"@.len());
    assert("ABS_Z"@.len() != "ABS_RZ"@.len());
    assert("ABS_Z"@.len() != "ABS_WHEEL_CW"@.len());
    assert("ABS_Z"@.len() != "ABS_WHEEL_CCW"@.len());
    assert("ABS_RZ"@.len() != "ABS_WHEEL_CW"@.len());
    assert("ABS_RZ"@.len() != "ABS_WHEEL_CCW"@.len());
    assert("ABS_WHEEL_CW"@.len() != "ABS_WHEEL_CCW"@.len());
}

/// The grips of the controller have names and codes of their own, whatever the
/// kernel's table says; every other name means what the table says.
pub proof fn law_grips_have_names(table: Option<u16>, s: Seq<char>)
    ensures
        key_of_name_given("BTN_GRIPL"@, table) == Some(Key(0x224)),
        key_of_name_given("BTN_GRIPR"@, table) == Some(Key(0x225)),
        key_of_name_given("BTN_GRIPL2"@, table) == Some(Key(0x226)),
        key_of_name_given("BTN_GRIPR2"@, table) == Some(Key(0x227)),
        key_name(Key(0x224)) == "BTN_GRIPL"@,
        key_name(Key(0x225)) == "BTN_GRIPR"@,
        key_name(Key(0x226)) == "BTN_GRIPL2"@,
        key_name(Key(0x227)) == "BTN_GRIPR2"@,
        s != "BTN_GRIPL"@ && s != "BTN_GRIPR"@ && s != "BTN_GRIPL2"@ && s != "BTN_GRIPR2"@ ==> (
        key_of_name_given(s, table) is Some <==> table is Some) && (table is Some
            ==> (key_of_name_given(s, table)->0).0 == table->0),
{
    reveal_strlit("BTN_GRIPL");
    reveal_strlit("BTN_GRIPR");
    reveal_strlit("BTN_GRIPL2");
    reveal_strlit("BTN_GRIPR2");
    assert("BTN_GRIPL"@[8] != "BTN_GRIPR"@[8]);
    assert("BTN_GRIPL2"@[8] != "BTN_GRIPR2"@[8]);
    assert("BTN_GRIPL"@.len() == 9 && "BTN_GRIPR"@.len() == 9);
    assert("BTN_GRIPL2"@.len() == 10 && "BTN_GRIPR2"@.len() == 10);
}

} // verus!
