//! From raw device events to presses and releases: pads, sticks, triggers and
//! wheels have a state, and what an event means depends on it.

use crate::event::{Axis, Event, Key};
use crate::settings::Settings;
use crate::text::same_text;
use vstd::prelude::*;

verus! {

/// An event as a device reports it.
#[derive(Debug, Clone, Copy, PartialEq, Eq, Structural)]
pub struct RawEvent {
    /// The event type of the kernel's input layer.
    pub kind: u16,
    pub code: u16,
    pub value: i32,
}

/// Event type of keys and buttons.
pub const EV_KEY: u16 = 1;

/// Event type of relative axes.
pub const EV_REL: u16 = 2;

/// Event type of absolute axes.
pub const EV_ABS: u16 = 3;

/// Event type of miscellaneous events.
pub const EV_MSC: u16 = 4;

/// The horizontal axis of the left stick.
pub const ABS_X: u16 = 0;

/// The vertical axis of the left stick.
pub const ABS_Y: u16 = 1;

/// The left trigger.
pub const ABS_Z: u16 = 2;

/// The horizontal axis of the right stick.
pub const ABS_RX: u16 = 3;

/// The vertical axis of the right stick.
pub const ABS_RY: u16 = 4;

/// The right trigger.
pub const ABS_RZ: u16 = 5;

/// A wheel.
pub const ABS_WHEEL: u16 = 8;

/// The horizontal axis of the directional pad.
pub const ABS_HAT0X: u16 = 16;

/// The vertical axis of the directional pad.
pub const ABS_HAT0Y: u16 = 17;

/// A miscellaneous axis.
pub const ABS_MISC: u16 = 40;

/// The scroll wheel.
pub const REL_WHEEL: u16 = 8;

/// The scroll wheel, in fine steps.
pub const REL_WHEEL_HI_RES: u16 = 11;

/// What an event asks for.
#[derive(Debug, PartialEq, Eq)]
pub enum Step {
    /// Nothing.
    Nothing,
    /// A press, repeat or release of `event`; with `send_zero` a release is to
    /// follow at once.
    Convert { event: Event, value: i32, send_zero: bool },
    /// Hand the event on as it is.
    Default,
    /// Hand on what a pen has reported.
    Pen { events: Vec<RawEvent> },
}

/// What an event asks for, without its representation.
pub enum StepView {
    Nothing,
    Convert { event: Event, value: i32, send_zero: bool },
    Default,
    Pen { events: Seq<RawEvent> },
}

impl View for Step {
    type V = StepView;

    open spec fn view(&self) -> StepView {
        match *self {
            Step::Nothing => StepView::Nothing,
            Step::Convert { event, value, send_zero } => StepView::Convert {
                event,
                value,
                send_zero,
            },
            Step::Default => StepView::Default,
            Step::Pen { events } => StepView::Pen { events: events@ },
        }
    }
}

impl Step {
    /// Whether the configuration is looked up again before the step is taken:
    /// at every press.
    pub fn looks_up_config(&self) -> (r: bool)
        ensures
            r == (self matches Step::Convert { value, .. } && value == 1),
    {
        match self {
            Step::Convert { value, .. } => *value == 1,
            _ => false,
        }
    }
}

/// What is known of a device.
#[derive(Debug, Clone, Copy, PartialEq, Eq, Structural)]
pub struct DeviceFacts {
    /// Whether it has a pen.
    pub is_tablet: bool,
    /// The largest value of its absolute axes.
    pub max_abs_wheel: i32,
}

/// What the axes of a device have last reported. Directions are -1, 0 or 1.
#[derive(Debug, PartialEq, Eq)]
pub struct AxisState {
    pub dpad: (i32, i32),
    pub lstick: (i32, i32),
    pub rstick: (i32, i32),
    pub triggers: (i32, i32),
    pub abs_wheel: i32,
    pub pen_events: Vec<RawEvent>,
    /// How far the left stick is tilted, for stick movements.
    pub lstick_position: (i32, i32),
    /// How far the right stick is tilted, for stick movements.
    pub rstick_position: (i32, i32),
}

/// What the axes have last reported, without its representation.
#[verifier::ext_equal]
pub struct AxisView {
    pub dpad: (i32, i32),
    pub lstick: (i32, i32),
    pub rstick: (i32, i32),
    pub triggers: (i32, i32),
    pub abs_wheel: i32,
    pub pen_events: Seq<RawEvent>,
    pub lstick_position: (i32, i32),
    pub rstick_position: (i32, i32),
}

impl View for AxisState {
    type V = AxisView;

    open spec fn view(&self) -> AxisView {
        AxisView {
            dpad: self.dpad,
            lstick: self.lstick,
            rstick: self.rstick,
            triggers: self.triggers,
            abs_wheel: self.abs_wheel,
            pen_events: self.pen_events@,
            lstick_position: self.lstick_position,
            rstick_position: self.rstick_position,
        }
    }
}

/// All axes at rest.
pub open spec fn at_rest() -> AxisView {
    AxisView {
        dpad: (0, 0),
        lstick: (0, 0),
        rstick: (0, 0),
        triggers: (0, 0),
        abs_wheel: 0,
        pen_events: Seq::empty(),
        lstick_position: (0, 0),
        rstick_position: (0, 0),
    }
}

// ── Single axes ──────────────────────────────────────────────────────────────

/// How far an axis value is from the centre.
pub open spec fn distance_from_center(value: i32, axis_16_bit: bool) -> int {
    if axis_16_bit {
        value as int
    } else {
        (value - 128) * 200
    }
}

/// The quotient towards zero.
pub open spec fn quotient(n: int, d: int) -> int {
    if n >= 0 {
        n / d
    } else {
        -((-n) / d)
    }
}

/// The tilt that an axis value stands for: none within the dead zone, and
/// beyond it steps of 2000, rounded up.
pub open spec fn tilt(value: i32, deadzone: i32, axis_16_bit: bool) -> int {
    let d = distance_from_center(value, axis_16_bit);
    if -(deadzone * 200) <= d <= deadzone * 200 {
        0
    } else {
        quotient(d + 1999, 2000)
    }
}

/// The direction of a tilt.
pub open spec fn direction(t: int) -> i32 {
    if t < 0 {
        -1i32
    } else if t > 0 {
        1i32
    } else {
        0i32
    }
}

/// A press or release that a change of direction stands for.
pub open spec fn turn(was: i32, now: i32, negative: Axis, positive: Axis) -> StepView {
    if now == -1 && was != -1 {
        press(negative)
    } else if now == 1 && was != 1 {
        press(positive)
    } else if now == 0 && was == -1 {
        release(negative)
    } else if now == 0 && was == 1 {
        release(positive)
    } else {
        StepView::Nothing
    }
}

/// A press of an axis direction.
pub open spec fn press(a: Axis) -> StepView {
    StepView::Convert { event: Event::Axis(a), value: 1, send_zero: false }
}

/// A release of an axis direction.
pub open spec fn release(a: Axis) -> StepView {
    StepView::Convert { event: Event::Axis(a), value: 0, send_zero: false }
}

/// A notch of a wheel: a press with its release.
pub open spec fn notch(a: Axis) -> StepView {
    StepView::Convert { event: Event::Axis(a), value: 1, send_zero: true }
}

fn pressed(a: Axis) -> (r: Step)
    ensures
        r@ == press(a),
{
    Step::Convert { event: Event::Axis(a), value: 1, send_zero: false }
}

fn released(a: Axis) -> (r: Step)
    ensures
        r@ == release(a),
{
    Step::Convert { event: Event::Axis(a), value: 0, send_zero: false }
}

fn notched(a: Axis) -> (r: Step)
    ensures
        r@ == notch(a),
{
    Step::Convert { event: Event::Axis(a), value: 1, send_zero: true }
}

/// The tilt that an axis value stands for.
pub fn get_axis_value(value: i32, deadzone: i32, axis_16_bit: bool) -> (r: i32)
    ensures
        r == tilt(value, deadzone, axis_16_bit),
{
    let d: i64 = if axis_16_bit {
        value as i64
    } else {
        (value as i64 - 128) * 200
    };
    let zone: i64 = deadzone as i64 * 200;
    if -zone <= d && d <= zone {
        0
    } else {
        let n: i64 = d + 1999;
        if n >= 0 {
            (n as u64 / 2000) as i32
        } else {
            -(((-n) as u64 / 2000) as i32)
        }
    }
}

fn direction_of(t: i32) -> (r: i32)
    ensures
        r == direction(t as int),
{
    if t < 0 {
        -1
    } else if t > 0 {
        1
    } else {
        0
    }
}

fn turned(was: i32, now: i32, negative: Axis, positive: Axis) -> (r: Step)
    ensures
        r@ == turn(was, now, negative, positive),
{
    if now == -1 && was != -1 {
        pressed(negative)
    } else if now == 1 && was != 1 {
        pressed(positive)
    } else if now == 0 && was == -1 {
        released(negative)
    } else if now == 0 && was == 1 {
        released(positive)
    } else {
        Step::Nothing
    }
}

/// What a directional pad's axis asks for: a press at every report of a
/// direction, a release when it comes back to the centre.
pub open spec fn hat_step(was: i32, value: i32, negative: Axis, positive: Axis) -> StepView {
    if value == -1 {
        press(negative)
    } else if value == 1 {
        press(positive)
    } else if value == 0 && was == -1 {
        release(negative)
    } else if value == 0 && was == 1 {
        release(positive)
    } else {
        StepView::Nothing
    }
}

/// Where a directional pad's axis is after a report.
pub open spec fn hat_state(was: i32, value: i32) -> i32 {
    if -1 <= value <= 1 {
        value
    } else {
        was
    }
}

fn hat_stepped(was: i32, value: i32, negative: Axis, positive: Axis) -> (r: Step)
    ensures
        r@ == hat_step(was, value, negative, positive),
{
    if value == -1 {
        pressed(negative)
    } else if value == 1 {
        pressed(positive)
    } else if value == 0 && was == -1 {
        released(negative)
    } else if value == 0 && was == 1 {
        released(positive)
    } else {
        Step::Nothing
    }
}

fn hat_moved(was: i32, value: i32) -> (r: i32)
    ensures
        r == hat_state(was, value),
{
    if -1 <= value && value <= 1 {
        value
    } else {
        was
    }
}

/// What a trigger asks for: a press when it first reports, a release when it is
/// back at 0.
pub open spec fn trigger_step(was: i32, value: i32, a: Axis) -> StepView {
    if value == 0 && was == 1 {
        release(a)
    } else if was == 0 {
        press(a)
    } else {
        StepView::Nothing
    }
}

/// Where a trigger is after a report.
pub open spec fn trigger_state(was: i32, value: i32) -> i32 {
    if value == 0 && was == 1 {
        0i32
    } else if was == 0 {
        1i32
    } else {
        was
    }
}

fn trigger_stepped(was: i32, value: i32, a: Axis) -> (r: Step)
    ensures
        r@ == trigger_step(was, value, a),
{
    if value == 0 && was == 1 {
        released(a)
    } else if was == 0 {
        pressed(a)
    } else {
        Step::Nothing
    }
}

fn trigger_moved(was: i32, value: i32) -> (r: i32)
    ensures
        r == trigger_state(was, value),
{
    if value == 0 && was == 1 {
        0
    } else if was == 0 {
        1
    } else {
        was
    }
}

/// What a wheel asks for: a notch in the direction in which it turned, the
/// short way round.
pub open spec fn wheel_step(was: i32, value: i32, max: i32) -> StepView {
    if value == 0 || was == 0 {
        StepView::Nothing
    } else if value - was < quotient(-(max as int), 2) {
        notch(Axis::ABS_WHEEL_CW)
    } else if value - was > quotient(max as int, 2) {
        notch(Axis::ABS_WHEEL_CCW)
    } else if value > was {
        notch(Axis::ABS_WHEEL_CW)
    } else if value < was {
        notch(Axis::ABS_WHEEL_CCW)
    } else {
        StepView::Nothing
    }
}

fn half(n: i64) -> (r: i64)
    requires
        -0x1_0000_0000 < n < 0x1_0000_0000,
    ensures
        r == quotient(n as int, 2),
{
    if n >= 0 {
        (n as u64 / 2) as i64
    } else {
        -(((-n) as u64 / 2) as i64)
    }
}

fn wheel_stepped(was: i32, value: i32, max: i32) -> (r: Step)
    ensures
        r@ == wheel_step(was, value, max),
{
    let gap: i64 = value as i64 - was as i64;
    if value == 0 || was == 0 {
        Step::Nothing
    } else if gap < half(-(max as i64)) {
        notched(Axis::ABS_WHEEL_CW)
    } else if gap > half(max as i64) {
        notched(Axis::ABS_WHEEL_CCW)
    } else if value > was {
        notched(Axis::ABS_WHEEL_CW)
    } else if value < was {
        notched(Axis::ABS_WHEEL_CCW)
    } else {
        Step::Nothing
    }
}

// ── Sticks ───────────────────────────────────────────────────────────────────

/// Whether a stick moves the pointer or scrolls.
pub open spec fn moves(function: Seq<char>) -> bool {
    function == "cursor"@ || function == "scroll"@
}

/// Whether the directions of a stick are bound like buttons.
pub open spec fn is_bound(function: Seq<char>) -> bool {
    function == "bind"@
}

/// What a stick axis asks for, given the direction that it had.
pub open spec fn stick_step(
    function: Seq<char>,
    t: int,
    was: i32,
    negative: Axis,
    positive: Axis,
) -> StepView {
    if is_bound(function) {
        turn(was, direction(t), negative, positive)
    } else {
        StepView::Nothing
    }
}

/// The direction that a stick axis has after a report.
pub open spec fn stick_direction(function: Seq<char>, t: int, was: i32) -> i32 {
    if is_bound(function) {
        direction(t)
    } else {
        was
    }
}

/// The position that a stick axis has after a report.
pub open spec fn stick_position(function: Seq<char>, t: int, was: i32) -> i32 {
    if moves(function) {
        t as i32
    } else {
        was
    }
}

fn stick_stepped(
    function: &str,
    t: i32,
    position: &mut i32,
    was: &mut i32,
    negative: Axis,
    positive: Axis,
) -> (r: Step)
    ensures
        r@ == stick_step(function@, t as int, *old(was), negative, positive),
        *final(was) == stick_direction(function@, t as int, *old(was)),
        *final(position) == stick_position(function@, t as int, *old(position)),
{
    proof {
        reveal_strlit("bind");
        reveal_strlit("cursor");
        reveal_strlit("scroll");
    }
    if same_text(function, "cursor") || same_text(function, "scroll") {
        proof {
            assert(function@[0] != 'b');
        }
        *position = t;
        Step::Nothing
    } else if same_text(function, "bind") {
        let now: i32 = direction_of(t);
        let step: Step = turned(*was, now, negative, positive);
        *was = now;
        step
    } else {
        Step::Nothing
    }
}

// ── Events ───────────────────────────────────────────────────────────────────

/// Whether a key code is one of a tablet's tools.
pub open spec fn is_tool(code: u16) -> bool {
    0x140 <= code <= 0x144 || code == 0x146 || code == 0x147
}

/// What an event means to a device with the given axes: the axes afterwards,
/// and what is to be done.
pub open spec fn axis_step(
    facts: DeviceFacts,
    settings: Settings,
    s: AxisView,
    e: RawEvent,
) -> (AxisView, StepView) {
    let lf = settings.lstick.function@;
    let rf = settings.rstick.function@;
    let lt = tilt(e.value, settings.lstick.deadzone, settings.axis_16_bit);
    let rt = tilt(e.value, settings.rstick.deadzone, settings.axis_16_bit);
    let lx = AxisView {
        lstick_position: (stick_position(lf, lt, s.lstick_position.0), s.lstick_position.1),
        lstick: (stick_direction(lf, lt, s.lstick.0), s.lstick.1),
        ..s
    };
    let ly = AxisView {
        lstick_position: (s.lstick_position.0, stick_position(lf, lt, s.lstick_position.1)),
        lstick: (s.lstick.0, stick_direction(lf, lt, s.lstick.1)),
        ..s
    };
    let rx = AxisView {
        rstick_position: (stick_position(rf, rt, s.rstick_position.0), s.rstick_position.1),
        rstick: (stick_direction(rf, rt, s.rstick.0), s.rstick.1),
        ..s
    };
    let ry = AxisView {
        rstick_position: (s.rstick_position.0, stick_position(rf, rt, s.rstick_position.1)),
        rstick: (s.rstick.0, stick_direction(rf, rt, s.rstick.1)),
        ..s
    };
    let to_pen = AxisView { pen_events: s.pen_events.push(e), ..s };
    if e.kind == EV_KEY {
        if is_tool(e.code) && facts.is_tablet {
            (to_pen, StepView::Nothing)
        } else {
            (
                s,
                StepView::Convert {
                    event: Event::Key(Key(e.code)),
                    value: e.value,
                    send_zero: false,
                },
            )
        }
    } else if e.kind == EV_REL && (e.code == REL_WHEEL || e.code == REL_WHEEL_HI_RES) {
        (
            s,
            if e.value == -120 {
                notch(Axis::SCROLL_WHEEL_DOWN)
            } else if e.value == 120 {
                notch(Axis::SCROLL_WHEEL_UP)
            } else {
                StepView::Nothing
            },
        )
    } else if e.kind == EV_ABS && e.code == ABS_WHEEL {
        (
            AxisView { abs_wheel: e.value, ..s },
            wheel_step(s.abs_wheel, e.value, facts.max_abs_wheel),
        )
    } else if e.kind == EV_ABS && e.code == ABS_MISC {
        if !facts.is_tablet && e.value == 0 {
            (AxisView { abs_wheel: 0, ..s }, StepView::Nothing)
        } else {
            (s, StepView::Default)
        }
    } else if e.kind == EV_ABS && facts.is_tablet {
        (to_pen, StepView::Nothing)
    } else if e.code == ABS_HAT0X {
        (
            AxisView { dpad: (hat_state(s.dpad.0, e.value), s.dpad.1), ..s },
            hat_step(s.dpad.0, e.value, Axis::BTN_DPAD_LEFT, Axis::BTN_DPAD_RIGHT),
        )
    } else if e.code == ABS_HAT0Y {
        (
            AxisView { dpad: (s.dpad.0, hat_state(s.dpad.1, e.value)), ..s },
            hat_step(s.dpad.1, e.value, Axis::BTN_DPAD_UP, Axis::BTN_DPAD_DOWN),
        )
    } else if e.kind == EV_ABS && e.code == ABS_X {
        (lx, stick_step(lf, lt, s.lstick.0, Axis::LSTICK_LEFT, Axis::LSTICK_RIGHT))
    } else if e.kind == EV_ABS && e.code == ABS_Y {
        (ly, stick_step(lf, lt, s.lstick.1, Axis::LSTICK_UP, Axis::LSTICK_DOWN))
    } else if e.kind == EV_ABS && e.code == ABS_RX {
        (rx, stick_step(rf, rt, s.rstick.0, Axis::RSTICK_LEFT, Axis::RSTICK_RIGHT))
    } else if e.kind == EV_ABS && e.code == ABS_RY {
        (ry, stick_step(rf, rt, s.rstick.1, Axis::RSTICK_UP, Axis::RSTICK_DOWN))
    } else if e.kind == EV_ABS && e.code == ABS_Z {
        if settings.stadia {
            (rx, stick_step(rf, rt, s.rstick.0, Axis::RSTICK_LEFT, Axis::RSTICK_RIGHT))
        } else {
            (
                AxisView { triggers: (trigger_state(s.triggers.0, e.value), s.triggers.1), ..s },
                trigger_step(s.triggers.0, e.value, Axis::ABS_Z),
            )
        }
    } else if e.kind == EV_ABS && e.code == ABS_RZ {
        if settings.stadia {
            (ry, stick_step(rf, rt, s.rstick.1, Axis::RSTICK_UP, Axis::RSTICK_DOWN))
        } else {
            (
                AxisView { triggers: (s.triggers.0, trigger_state(s.triggers.1, e.value)), ..s },
                trigger_step(s.triggers.1, e.value, Axis::ABS_RZ),
            )
        }
    } else if e.kind == EV_MSC && facts.is_tablet {
        if e.code == 0 {
            (
                AxisView { pen_events: Seq::empty(), ..s },
                StepView::Pen { events: s.pen_events.push(e) },
            )
        } else {
            (s, StepView::Nothing)
        }
    } else {
        (s, StepView::Default)
    }
}

impl AxisState {
    /// All axes at rest.
    pub fn new() -> (r: AxisState)
        ensures
            r@ == at_rest(),
    {
        let r = AxisState {
            dpad: (0, 0),
            lstick: (0, 0),
            rstick: (0, 0),
            triggers: (0, 0),
            abs_wheel: 0,
            pen_events: Vec::new(),
            lstick_position: (0, 0),
            rstick_position: (0, 0),
        };
        assert(r@.pen_events =~= Seq::<RawEvent>::empty());
        r
    }

    /// Take in an event, and say what is to be done.
    pub fn step(&mut self, facts: &DeviceFacts, settings: &Settings, e: RawEvent) -> (r: Step)
        ensures
            (final(self)@, r@) == axis_step(*facts, *settings, old(self)@, e),
    {
        let lf: &str = settings.lstick.function.as_str();
        let rf: &str = settings.rstick.function.as_str();
        if e.kind == EV_KEY {
            let tool: bool = (0x140 <= e.code && e.code <= 0x144) || e.code == 0x146 || e.code
                == 0x147;
            if tool && facts.is_tablet {
                self.pen_events.push(e);
                return Step::Nothing;
            }
            return Step::Convert {
                event: Event::Key(Key(e.code)),
                value: e.value,
                send_zero: false,
            };
        }
        if e.kind == EV_REL && (e.code == REL_WHEEL || e.code == REL_WHEEL_HI_RES) {
            return if e.value == -120 {
                notched(Axis::SCROLL_WHEEL_DOWN)
            } else if e.value == 120 {
                notched(Axis::SCROLL_WHEEL_UP)
            } else {
                Step::Nothing
            };
        }
        if e.kind == EV_ABS && e.code == ABS_WHEEL {
            let step: Step = wheel_stepped(self.abs_wheel, e.value, facts.max_abs_wheel);
            self.abs_wheel = e.value;
            return step;
        }
        if e.kind == EV_ABS && e.code == ABS_MISC {
            if !facts.is_tablet && e.value == 0 {
                self.abs_wheel = 0;
                return Step::Nothing;
            }
            return Step::Default;
        }
        if e.kind == EV_ABS && facts.is_tablet {
            self.pen_events.push(e);
            return Step::Nothing;
        }
        if e.code == ABS_HAT0X {
            let step: Step = hat_stepped(
                self.dpad.0,
                e.value,
                Axis::BTN_DPAD_LEFT,
                Axis::BTN_DPAD_RIGHT,
            );
            self.dpad.0 = hat_moved(self.dpad.0, e.value);
            return step;
        }
        if e.code == ABS_HAT0Y {
            let step: Step = hat_stepped(
                self.dpad.1,
                e.value,
                Axis::BTN_DPAD_UP,
                Axis::BTN_DPAD_DOWN,
            );
            self.dpad.1 = hat_moved(self.dpad.1, e.value);
            return step;
        }
        if e.kind == EV_ABS && (e.code == ABS_X || e.code == ABS_Y) {
            let t: i32 = get_axis_value(e.value, settings.lstick.deadzone, settings.axis_16_bit);
            if e.code == ABS_X {
                return stick_stepped(
                    lf,
                    t,
                    &mut self.lstick_position.0,
                    &mut self.lstick.0,
                    Axis::LSTICK_LEFT,
                    Axis::LSTICK_RIGHT,
                );
            }
            return stick_stepped(
                lf,
                t,
                &mut self.lstick_position.1,
                &mut self.lstick.1,
                Axis::LSTICK_UP,
                Axis::LSTICK_DOWN,
            );
        }
        let right_x: bool = e.code == ABS_RX || (e.code == ABS_Z && settings.stadia);
        let right_y: bool = e.code == ABS_RY || (e.code == ABS_RZ && settings.stadia);
        if e.kind == EV_ABS && (right_x || right_y) {
            let t: i32 = get_axis_value(e.value, settings.rstick.deadzone, settings.axis_16_bit);
            if right_x {
                return stick_stepped(
                    rf,
                    t,
                    &mut self.rstick_position.0,
                    &mut self.rstick.0,
                    Axis::RSTICK_LEFT,
                    Axis::RSTICK_RIGHT,
                );
            }
            return stick_stepped(
                rf,
                t,
                &mut self.rstick_position.1,
                &mut self.rstick.1,
                Axis::RSTICK_UP,
                Axis::RSTICK_DOWN,
            );
        }
        if e.kind == EV_ABS && e.code == ABS_Z {
            let step: Step = trigger_stepped(self.triggers.0, e.value, Axis::ABS_Z);
            self.triggers.0 = trigger_moved(self.triggers.0, e.value);
            return step;
        }
        if e.kind == EV_ABS && e.code == ABS_RZ {
            let step: Step = trigger_stepped(self.triggers.1, e.value, Axis::ABS_RZ);
            self.triggers.1 = trigger_moved(self.triggers.1, e.value);
            return step;
        }
        if e.kind == EV_MSC && facts.is_tablet {
            if e.code == 0 {
                let mut events: Vec<RawEvent> = Vec::new();
                std::mem::swap(&mut events, &mut self.pen_events);
                events.push(e);
                assert(self@.pen_events =~= Seq::<RawEvent>::empty());
                return Step::Pen { events };
            }
            return Step::Nothing;
        }
        Step::Default
    }
}

/// The largest maximum of a device's absolute axes, at least 0.
pub open spec fn largest(maxima: Seq<i32>) -> i32
    decreases maxima.len(),
{
    if maxima.len() == 0 {
        0i32
    } else {
        let before = largest(maxima.drop_last());
        if maxima.last() > before {
            maxima.last()
        } else {
            before
        }
    }
}

/// The largest maximum of a device's absolute axes, at least 0.
pub fn max_abs_wheel(maxima: &Vec<i32>) -> (r: i32)
    ensures
        r == largest(maxima@),
{
    let mut r: i32 = 0;
    let mut i: usize = 0;
    assert(maxima@.take(0) =~= Seq::<i32>::empty());
    while i < maxima.len()
        invariant
            i <= maxima@.len(),
            r == largest(maxima@.take(i as int)),
        decreases maxima@.len() - i,
    {
        if maxima[i] > r {
            r = maxima[i];
        }
        i = i + 1;
        proof {
            assert(maxima@.take(i as int).drop_last() =~= maxima@.take(i - 1));
            assert(maxima@.take(i as int).last() == maxima@[i - 1]);
        }
    }
    assert(maxima@.take(i as int) =~= maxima@);
    r
}

// ── Laws ─────────────────────────────────────────────────────────────────────

/// Within the dead zone a stick is at rest.
pub proof fn law_dead_zone_is_still(value: i32, deadzone: i32, axis_16_bit: bool)
    requires
        -(deadzone * 200) <= distance_from_center(value, axis_16_bit) <= deadzone * 200,
    ensures
        tilt(value, deadzone, axis_16_bit) == 0,
{
}

/// A direction of the directional pad that was pressed is the one that is
/// released when the pad comes back to its centre.
pub proof fn law_hat_releases_what_it_pressed(was: i32, value: i32, negative: Axis, positive: Axis)
    requires
        value == -1 || value == 1,
    ensures
        ({
            let pressed = if value == -1 {
                negative
            } else {
                positive
            };
            &&& hat_step(was, value, negative, positive) == press(pressed)
            &&& hat_step(hat_state(was, value), 0, negative, positive) == release(pressed)
            &&& hat_state(hat_state(was, value), 0) == 0
        }),
{
}

/// A stick that is bound like buttons releases, when it comes back to the
/// centre, the direction that it pressed when it left it.
pub proof fn law_bound_stick_releases_what_it_pressed(t: int, negative: Axis, positive: Axis)
    requires
        direction(t) != 0,
    ensures
        ({
            let a = if t < 0 {
                negative
            } else {
                positive
            };
            &&& turn(0, direction(t), negative, positive) == press(a)
            &&& turn(direction(t), direction(0), negative, positive) == release(a)
        }),
{
}

/// A trigger at rest is pressed by its first report, and however it moves in
/// between it is pressed once and released once.
pub proof fn law_trigger_presses_once(value: i32, again: i32, a: Axis)
    requires
        again != 0,
    ensures
        trigger_step(0, value, a) == press(a),
        trigger_state(0, value) == 1,
        trigger_step(1, again, a) == StepView::Nothing,
        trigger_state(1, again) == 1,
        trigger_step(1, 0, a) == release(a),
        trigger_state(1, 0) == 0,
{
}

/// Only the axes that an event is about change.
pub proof fn law_axes_are_independent(
    facts: DeviceFacts,
    settings: Settings,
    s: AxisView,
    e: RawEvent,
)
    ensures
        ({
            let t = axis_step(facts, settings, s, e).0;
            &&& e.kind == EV_KEY ==> t == (AxisView { pen_events: t.pen_events, ..s })
            &&& e.kind == EV_ABS && e.code == ABS_X && !facts.is_tablet ==> t == (AxisView {
                lstick: (t.lstick.0, s.lstick.1),
                lstick_position: (t.lstick_position.0, s.lstick_position.1),
                ..s
            })
            &&& e.kind == EV_ABS && e.code == ABS_RY && !facts.is_tablet ==> t == (AxisView {
                rstick: (s.rstick.0, t.rstick.1),
                rstick_position: (s.rstick_position.0, t.rstick_position.1),
                ..s
            })
        }),
{
}

/// A stick that is bound like buttons presses the direction in which it is
/// pushed: left and up are the negative ends of its axes, right and down the
/// positive ones. It lets go of a direction when it comes back to the centre,
/// and says nothing while it stays where it is. Distances are counted in units
/// of a 16-bit axis; a step to the negative side takes 3999 of them.
pub proof fn law_bound_stick_presses_where_it_is_pushed(
    facts: DeviceFacts,
    settings: Settings,
    s: AxisView,
    e: RawEvent,
)
    requires
        e.kind == 3,
        !facts.is_tablet,
        e.code == 0 || e.code == 1 || e.code == 3 || e.code == 4 || (settings.stadia && (e.code
            == 2 || e.code == 5)),
        (if e.code <= 1 {
            settings.lstick.function@
        } else {
            settings.rstick.function@
        }) == "bind"@,
    ensures
        ({
            let (t, step) = axis_step(facts, settings, s, e);
            let d: int = if settings.axis_16_bit {
                e.value as int
            } else {
                (e.value - 128) * 200
            };
            let zone: int = 200 * (if e.code <= 1 {
                settings.lstick.deadzone
            } else {
                settings.rstick.deadzone
            });
            let outside = d < -zone || d > zone;
            let now: int = if outside && d <= -3999 {
                -1
            } else if outside && d >= 1 {
                1
            } else {
                0
            };
            let (was, is): (i32, i32) = if e.code == 0 {
                (s.lstick.0, t.lstick.0)
            } else if e.code == 1 {
                (s.lstick.1, t.lstick.1)
            } else if e.code == 3 || e.code == 2 {
                (s.rstick.0, t.rstick.0)
            } else {
                (s.rstick.1, t.rstick.1)
            };
            let (negative, positive) = if e.code == 0 {
                (Axis::LSTICK_LEFT, Axis::LSTICK_RIGHT)
            } else if e.code == 1 {
                (Axis::LSTICK_UP, Axis::LSTICK_DOWN)
            } else if e.code == 3 || e.code == 2 {
                (Axis::RSTICK_LEFT, Axis::RSTICK_RIGHT)
            } else {
                (Axis::RSTICK_UP, Axis::RSTICK_DOWN)
            };
            &&& is == now
            &&& now == -1 && was != -1 ==> step == (StepView::Convert {
                event: Event::Axis(negative),
                value: 1,
                send_zero: false,
            })
            &&& now == 1 && was != 1 ==> step == (StepView::Convert {
                event: Event::Axis(positive),
                value: 1,
                send_zero: false,
            })
            &&& now == 0 && was == -1 ==> step == (StepView::Convert {
                event: Event::Axis(negative),
                value: 0,
                send_zero: false,
            })
            &&& now == 0 && was == 1 ==> step == (StepView::Convert {
                event: Event::Axis(positive),
                value: 0,
                send_zero: false,
            })
            &&& now == was ==> step == StepView::Nothing
            &&& t == (AxisView { lstick: t.lstick, rstick: t.rstick, ..s })
            &&& e.code != 0 ==> t.lstick.0 == s.lstick.0
            &&& e.code != 1 ==> t.lstick.1 == s.lstick.1
            &&& e.code != 3 && e.code != 2 ==> t.rstick.0 == s.rstick.0
            &&& e.code != 4 && e.code != 5 ==> t.rstick.1 == s.rstick.1
        }),
{
    reveal_strlit("bind");
    reveal_strlit("cursor");
    reveal_strlit("scroll");
    lemma_words_differ();
}

proof fn lemma_words_differ()
    ensures
        "bind"@ != "cursor"@,
        "bind"@ != "scroll"@,
{
    reveal_strlit("bind");
    reveal_strlit("cursor");
    reveal_strlit("scroll");
    assert("bind"@.len() == 4);
    assert("cursor"@.len() == 6);
    assert("scroll"@.len() == 6);
}

/// A stick that moves the pointer or scrolls is as far from its centre as it
/// was last pushed, in steps of 2000 units: the step that the position falls in
/// on the positive side, one less than the steps that it has passed on the
/// negative side, and none within the dead zone. It presses nothing.
pub proof fn law_moving_stick_is_where_it_was_pushed(
    facts: DeviceFacts,
    settings: Settings,
    s: AxisView,
    e: RawEvent,
)
    requires
        e.kind == 3,
        !facts.is_tablet,
        e.code == 0 || e.code == 1 || e.code == 3 || e.code == 4 || (settings.stadia && (e.code
            == 2 || e.code == 5)),
        ({
            let function = if e.code <= 1 {
                settings.lstick.function@
            } else {
                settings.rstick.function@
            };
            function == "cursor"@ || function == "scroll"@
        }),
    ensures
        ({
            let (t, step) = axis_step(facts, settings, s, e);
            let d: int = if settings.axis_16_bit {
                e.value as int
            } else {
                (e.value - 128) * 200
            };
            let zone: int = 200 * (if e.code <= 1 {
                settings.lstick.deadzone
            } else {
                settings.rstick.deadzone
            });
            let outside = d < -zone || d > zone;
            let p: i32 = if e.code == 0 {
                t.lstick_position.0
            } else if e.code == 1 {
                t.lstick_position.1
            } else if e.code == 3 || e.code == 2 {
                t.rstick_position.0
            } else {
                t.rstick_position.1
            };
            &&& step == StepView::Nothing
            &&& !outside ==> p == 0
            &&& outside && d >= 1 ==> 2000 * (p - 1) < d <= 2000 * p
            &&& outside && -3999 < d < 1 ==> p == 0
            &&& outside && d <= -3999 ==> 2000 * (p - 1) < d + 1999 <= 2000 * p
            &&& t == (AxisView {
                lstick_position: t.lstick_position,
                rstick_position: t.rstick_position,
                ..s
            })
            &&& e.code != 0 ==> t.lstick_position.0 == s.lstick_position.0
            &&& e.code != 1 ==> t.lstick_position.1 == s.lstick_position.1
            &&& e.code != 3 && e.code != 2 ==> t.rstick_position.0 == s.rstick_position.0
            &&& e.code != 4 && e.code != 5 ==> t.rstick_position.1 == s.rstick_position.1
        }),
{
    lemma_words_differ();
    let deadzone = if e.code <= 1 {
        settings.lstick.deadzone
    } else {
        settings.rstick.deadzone
    };
    lemma_tilt_range(e.value, deadzone, settings.axis_16_bit);
}

proof fn lemma_tilt_range(value: i32, deadzone: i32, axis_16_bit: bool)
    ensures
        i32::MIN <= tilt(value, deadzone, axis_16_bit) <= i32::MAX,
{
}

/// A stick with any other function is left alone.
pub proof fn law_idle_stick_does_nothing(
    facts: DeviceFacts,
    settings: Settings,
    s: AxisView,
    e: RawEvent,
)
    requires
        e.kind == 3,
        !facts.is_tablet,
        e.code == 0 || e.code == 1 || e.code == 3 || e.code == 4,
        ({
            let function = if e.code <= 1 {
                settings.lstick.function@
            } else {
                settings.rstick.function@
            };
            function != "cursor"@ && function != "scroll"@ && function != "bind"@
        }),
    ensures
        axis_step(facts, settings, s, e) == (s, StepView::Nothing),
{
}

/// The directional pad presses the direction that it reports, left and up with
/// -1, right and down with 1, and lets go of it at 0. Every other report
/// changes nothing.
pub proof fn law_directional_pad_presses_its_directions(
    facts: DeviceFacts,
    settings: Settings,
    s: AxisView,
    e: RawEvent,
)
    requires
        e.kind == 3,
        !facts.is_tablet,
        e.code == 16 || e.code == 17,
    ensures
        ({
            let (t, step) = axis_step(facts, settings, s, e);
            let (was, is) = if e.code == 16 {
                (s.dpad.0, t.dpad.0)
            } else {
                (s.dpad.1, t.dpad.1)
            };
            let (negative, positive) = if e.code == 16 {
                (Axis::BTN_DPAD_LEFT, Axis::BTN_DPAD_RIGHT)
            } else {
                (Axis::BTN_DPAD_UP, Axis::BTN_DPAD_DOWN)
            };
            &&& e.value == -1 ==> is == -1 && step == (StepView::Convert {
                event: Event::Axis(negative),
                value: 1,
                send_zero: false,
            })
            &&& e.value == 1 ==> is == 1 && step == (StepView::Convert {
                event: Event::Axis(positive),
                value: 1,
                send_zero: false,
            })
            &&& e.value == 0 ==> is == 0
            &&& e.value == 0 && was == -1 ==> step == (StepView::Convert {
                event: Event::Axis(negative),
                value: 0,
                send_zero: false,
            })
            &&& e.value == 0 && was == 1 ==> step == (StepView::Convert {
                event: Event::Axis(positive),
                value: 0,
                send_zero: false,
            })
            &&& e.value == 0 && was == 0 ==> step == StepView::Nothing
            &&& e.value < -1 || e.value > 1 ==> is == was && step == StepView::Nothing
            &&& t == (AxisView { dpad: t.dpad, ..s })
            &&& e.code == 16 ==> t.dpad.1 == s.dpad.1
            &&& e.code == 17 ==> t.dpad.0 == s.dpad.0
        }),
{
}

/// Each trigger presses itself, once, when it leaves its rest, and lets go of
/// itself when it is back at 0. The other trigger has no part in it.
pub proof fn law_triggers_press_themselves(
    facts: DeviceFacts,
    settings: Settings,
    s: AxisView,
    e: RawEvent,
)
    requires
        e.kind == 3,
        !facts.is_tablet,
        !settings.stadia,
        e.code == 2 || e.code == 5,
        0 <= s.triggers.0 <= 1,
        0 <= s.triggers.1 <= 1,
    ensures
        ({
            let (t, step) = axis_step(facts, settings, s, e);
            let (was, is) = if e.code == 2 {
                (s.triggers.0, t.triggers.0)
            } else {
                (s.triggers.1, t.triggers.1)
            };
            let own = if e.code == 2 {
                Axis::ABS_Z
            } else {
                Axis::ABS_RZ
            };
            &&& was == 0 ==> is == 1 && step == (StepView::Convert {
                event: Event::Axis(own),
                value: 1,
                send_zero: false,
            })
            &&& was == 1 && e.value == 0 ==> is == 0 && step == (StepView::Convert {
                event: Event::Axis(own),
                value: 0,
                send_zero: false,
            })
            &&& was == 1 && e.value != 0 ==> is == 1 && step == StepView::Nothing
            &&& t == (AxisView { triggers: t.triggers, ..s })
            &&& e.code == 2 ==> t.triggers.1 == s.triggers.1
            &&& e.code == 5 ==> t.triggers.0 == s.triggers.0
        }),
{
}

/// A scroll wheel turns a notch up at 120 and down at -120, whichever of its
/// two codes tells of it, and changes nothing else.
pub proof fn law_scroll_wheel_turns_both_ways(
    facts: DeviceFacts,
    settings: Settings,
    s: AxisView,
    e: RawEvent,
)
    requires
        e.kind == 2,
        e.code == 8 || e.code == 11,
    ensures
        ({
            let (t, step) = axis_step(facts, settings, s, e);
            &&& t == s
            &&& e.value == 120 ==> step == (StepView::Convert {
                event: Event::Axis(Axis::SCROLL_WHEEL_UP),
                value: 1,
                send_zero: true,
            })
            &&& e.value == -120 ==> step == (StepView::Convert {
                event: Event::Axis(Axis::SCROLL_WHEEL_DOWN),
                value: 1,
                send_zero: true,
            })
            &&& e.value != 120 && e.value != -120 ==> step == StepView::Nothing
        }),
{
}

/// A touch wheel turns a notch the short way round: clockwise where its value
/// has grown by no more than half of its range, or has fallen by more than
/// that; counter-clockwise the other way. The first report only says where the
/// finger is.
pub proof fn law_touch_wheel_turns_the_short_way(
    facts: DeviceFacts,
    settings: Settings,
    s: AxisView,
    e: RawEvent,
)
    requires
        e.kind == 3,
        e.code == 8,
        facts.max_abs_wheel >= 0,
    ensures
        ({
            let (t, step) = axis_step(facts, settings, s, e);
            let gone = e.value - s.abs_wheel;
            let half = facts.max_abs_wheel as int / 2;
            &&& t == (AxisView { abs_wheel: e.value, ..s })
            &&& e.value == 0 || s.abs_wheel == 0 || gone == 0 ==> step == StepView::Nothing
            &&& e.value != 0 && s.abs_wheel != 0 && (0 < gone <= half || gone < -half) ==> step
                == (StepView::Convert {
                event: Event::Axis(Axis::ABS_WHEEL_CW),
                value: 1,
                send_zero: true,
            })
            &&& e.value != 0 && s.abs_wheel != 0 && (-half <= gone < 0 || gone > half) ==> step
                == (StepView::Convert {
                event: Event::Axis(Axis::ABS_WHEEL_CCW),
                value: 1,
                send_zero: true,
            })
        }),
{
}

/// A key is what it reports, with the value that it reports, and moves no axis;
/// only the tools of a tablet are kept for the pen.
pub proof fn law_keys_are_what_they_report(
    facts: DeviceFacts,
    settings: Settings,
    s: AxisView,
    e: RawEvent,
)
    requires
        e.kind == 1,
    ensures
        ({
            let tool = facts.is_tablet && (e.code == 0x140 || e.code == 0x141 || e.code == 0x142
                || e.code == 0x143 || e.code == 0x144 || e.code == 0x146 || e.code == 0x147);
            axis_step(facts, settings, s, e) == if tool {
                (AxisView { pen_events: s.pen_events.push(e), ..s }, StepView::Nothing)
            } else {
                (
                    s,
                    StepView::Convert {
                        event: Event::Key(Key(e.code)),
                        value: e.value,
                        send_zero: false,
                    },
                )
            }
        }),
{
}

/// A tablet's axes and tools are gathered and handed on whole, in their order,
/// with the report that ends them; nothing is left behind, and no stick,
/// trigger or pad is moved by them. What no rule speaks of is handed on as it
/// is.
pub proof fn law_pen_reports_are_handed_on_whole(
    facts: DeviceFacts,
    settings: Settings,
    s: AxisView,
    e: RawEvent,
)
    ensures
        ({
            let (t, step) = axis_step(facts, settings, s, e);
            &&& facts.is_tablet && e.kind == 3 && e.code != 8 && e.code != 40 ==> step
                == StepView::Nothing && t == (AxisView {
                pen_events: s.pen_events.push(e),
                ..s
            })
            &&& facts.is_tablet && e.kind == 4 && e.code == 0 ==> step == (StepView::Pen {
                events: s.pen_events.push(e),
            }) && t == (AxisView { pen_events: Seq::empty(), ..s })
            &&& facts.is_tablet && e.kind == 4 && e.code != 0 && e.code != 16 && e.code != 17
                ==> step == StepView::Nothing && t == s
            &&& e.kind == 3 && e.code == 40 ==> {
                if !facts.is_tablet && e.value == 0 {
                    step == StepView::Nothing && t == (AxisView { abs_wheel: 0, ..s })
                } else {
                    step == StepView::Default && t == s
                }
            }
            &&& !facts.is_tablet && e.kind == 3 && e.code != 0 && e.code != 1 && e.code != 2
                && e.code != 3 && e.code != 4 && e.code != 5 && e.code != 8 && e.code != 16
                && e.code != 17 && e.code != 40 ==> step == StepView::Default && t == s
            &&& !facts.is_tablet && (e.kind > 3 || e.kind == 0) && e.code != 16 && e.code != 17
                ==> step == StepView::Default && t == s
            &&& e.kind == 2 && e.code != 8 && e.code != 11 && e.code != 16 && e.code != 17
                ==> step == StepView::Default && t == s
        }),
{
}

/// The largest maximum is one of them, or 0, and none is larger.
pub proof fn law_largest_is_the_largest(maxima: Seq<i32>)
    ensures
        largest(maxima) >= 0,
        largest(maxima) == 0 || maxima.contains(largest(maxima)),
        forall|i: int| 0 <= i < maxima.len() ==> #[trigger] maxima[i] <= largest(maxima),
    decreases maxima.len(),
{
    if maxima.len() > 0 {
        let init = maxima.drop_last();
        law_largest_is_the_largest(init);
        assert forall|i: int| 0 <= i < maxima.len() implies #[trigger] maxima[i] <= largest(
            maxima,
        ) by {
            if i < init.len() {
                assert(init[i] == maxima[i]);
            }
        }
        if largest(init) != 0 {
            let j = choose|j: int| 0 <= j < init.len() && init[j] == largest(init);
            assert(maxima[j] == largest(init));
        }
        assert(maxima[maxima.len() - 1] == maxima.last());
    }
}

} // verus!
