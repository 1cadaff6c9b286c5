//! The trackpads: what each handler is configured to do, and how frames become
//! touches, clicks and haptic pulses.

use crate::config::TrackpadConfig;
use crate::haptics::{default_pulse, HapticChain, HapticChainStep, HapticPulse, PadFrame};
use crate::text::same_text;
use vstd::prelude::*;

verus! {

/// Whether a finger is on a pad: the hardware reports the centre without one.
pub fn is_touching(x: i32, y: i32) -> (r: bool)
    ensures
        r == (x != 0 || y != 0),
{
    x != 0 || y != 0
}

// ── One pad ──────────────────────────────────────────────────────────────────

/// The distance between two pulses of a movement, where none is configured.
pub fn default_movement_pixel_interval() -> (r: u32)
    ensures
        r == 3000,
{
    3000
}

/// A pulse for every so much movement.
#[derive(Debug, Clone, Copy, PartialEq, Eq, Structural)]
pub struct MovementHaptic {
    /// The distance between two pulses, in units of the hardware.
    pub pixel_interval: u32,
    pub pulse: HapticPulse,
}

/// What is felt on one pad.
#[derive(Debug, Clone, PartialEq, Eq)]
pub struct HapticConfig {
    pub on_press: Option<HapticChain>,
    pub on_release: Option<HapticChain>,
    pub on_movement: Option<MovementHaptic>,
}

/// The configuration of a pad that acts as a touchpad.
#[derive(Debug, Clone, PartialEq, Eq)]
pub struct MtTrackpadConfig {
    pub haptic: HapticConfig,
}

impl Default for MtTrackpadConfig {
    fn default() -> (r: Self)
        ensures
            r.haptic.on_press is None,
            r.haptic.on_release is None,
            r.haptic.on_movement is None,
    {
        MtTrackpadConfig {
            haptic: HapticConfig { on_press: None, on_release: None, on_movement: None },
        }
    }
}

/// The pulses of a chain, where none is configured one pulse.
pub open spec fn chain_or_one(chain: Option<HapticChain>) -> Seq<HapticChainStep> {
    match chain {
        Some(c) => c@,
        None => seq![HapticChainStep { pulse: default_pulse(), pause_ms: None }],
    }
}

fn chain_or_built_in(chain: &Option<HapticChain>) -> (r: HapticChain)
    ensures
        r@ == chain_or_one(*chain),
{
    match chain {
        Some(c) => c.copy(),
        None => HapticChain::built_in(),
    }
}

impl MtTrackpadConfig {
    /// What is played when the pad is pressed.
    pub fn press_chain(&self) -> (r: HapticChain)
        ensures
            r@ == chain_or_one(self.haptic.on_press),
    {
        chain_or_built_in(&self.haptic.on_press)
    }

    /// What is played when the pad is let go.
    pub fn release_chain(&self) -> (r: Option<HapticChain>)
        ensures
            r matches Some(c) && c@ == chain_or_one(self.haptic.on_release),
    {
        Some(chain_or_built_in(&self.haptic.on_release))
    }

    /// What is played while a finger moves; nothing where nothing is
    /// configured.
    pub fn movement_pulse(&self) -> (r: Option<MovementHaptic>)
        ensures
            r == self.haptic.on_movement,
    {
        self.haptic.on_movement
    }
}

/// The configuration of a pad that scrolls. There is nothing to configure.
#[derive(Debug, Clone, PartialEq, Eq)]
pub struct ScrollConfig {}

/// What one pad reports.
#[derive(Debug, Clone, Copy, PartialEq, Eq, Structural)]
pub struct SinglePadFrame {
    pub x: i32,
    pub y: i32,
    pub touching: bool,
    pub click: bool,
}

/// The two ends of a click.
#[derive(Debug, Clone, Copy, PartialEq, Eq, Structural)]
pub enum ClickEdge {
    Press,
    Release,
}

/// The end of a click between two frames.
pub open spec fn edge(before: bool, now: bool) -> Option<ClickEdge> {
    if now && !before {
        Some(ClickEdge::Press)
    } else if !now && before {
        Some(ClickEdge::Release)
    } else {
        None
    }
}

/// What is known of a pad between two frames.
#[derive(Debug, Clone, Copy, PartialEq, Eq)]
pub struct PadRun {
    pub clicked: bool,
    /// Where the finger was, while it is on the pad.
    pub position: Option<(i32, i32)>,
}

/// What a frame of one pad leads to.
#[derive(Debug, Clone, Copy, PartialEq, Eq)]
pub struct PadStep {
    /// The end of a click, for the haptic chain.
    pub edge: Option<ClickEdge>,
    /// Where the finger was, where the way from there counts.
    pub moved_from: Option<(i32, i32)>,
    /// Whether the way that was counted so far is forgotten.
    pub lifted: bool,
}

impl PadRun {
    /// Nothing is known yet.
    pub fn new() -> (r: PadRun)
        ensures
            r == (PadRun { clicked: false, position: None }),
    {
        PadRun { clicked: false, position: None }
    }

    /// Take a frame. The way of the finger counts only where movements are
    /// felt.
    pub fn step(&mut self, frame: SinglePadFrame, feels_movement: bool) -> (r: PadStep)
        ensures
            final(self).clicked == frame.click,
            final(self).position == (if !feels_movement {
                old(self).position
            } else if frame.touching {
                Some((frame.x, frame.y))
            } else {
                None
            }),
            r.edge == edge(old(self).clicked, frame.click),
            r.moved_from == (if feels_movement && frame.touching {
                old(self).position
            } else {
                None
            }),
            r.lifted == (feels_movement && !frame.touching),
    {
        let edge: Option<ClickEdge> = if frame.click && !self.clicked {
            Some(ClickEdge::Press)
        } else if !frame.click && self.clicked {
            Some(ClickEdge::Release)
        } else {
            None
        };
        self.clicked = frame.click;
        let mut moved_from: Option<(i32, i32)> = None;
        if feels_movement {
            if frame.touching {
                moved_from = self.position;
                self.position = Some((frame.x, frame.y));
            } else {
                self.position = None;
            }
        }
        PadStep { edge, moved_from, lifted: feels_movement && !frame.touching }
    }
}

/// How many clicks begin, and how many end, in a run of frames.
pub open spec fn edges(before: bool, clicks: Seq<bool>, e: ClickEdge) -> nat
    decreases clicks.len(),
{
    if clicks.len() == 0 {
        0
    } else {
        (if edge(before, clicks[0]) == Some(e) {
            1nat
        } else {
            0nat
        }) + edges(clicks[0], clicks.drop_first(), e)
    }
}

/// Presses and releases alternate: from a pad at rest there are as many
/// releases as presses, and one press more while it is pressed.
pub proof fn law_press_and_release_alternate(before: bool, clicks: Seq<bool>)
    ensures
        ({
            let last = if clicks.len() == 0 {
                before
            } else {
                clicks.last()
            };
            let held: int = if before {
                1
            } else {
                0
            };
            let holds: int = if last {
                1
            } else {
                0
            };
            edges(before, clicks, ClickEdge::Press) + held == edges(
                before,
                clicks,
                ClickEdge::Release,
            ) + holds
        }),
    decreases clicks.len(),
{
    if clicks.len() > 0 {
        law_press_and_release_alternate(clicks[0], clicks.drop_first());
        if clicks.len() > 1 {
            assert(clicks.drop_first().last() == clicks.last());
        }
    }
}

// ── Both pads ────────────────────────────────────────────────────────────────

/// The distance between two pulses of a gesture, where none is configured.
pub fn default_move_pixel_interval() -> (r: u32)
    ensures
        r == 3000,
{
    3000
}

/// A pulse for every so much movement of a gesture.
#[derive(Debug, Clone, Copy, PartialEq, Eq, Structural)]
pub struct GestureMoveHaptic {
    /// The distance between two pulses, in units of the hardware.
    pub pixel_interval: u32,
    pub pulse: HapticPulse,
}

/// What is felt of a gesture.
#[derive(Debug, Clone, Copy, PartialEq, Eq)]
pub struct GestureHapticConfig {
    pub on_gesture_start: Option<HapticPulse>,
    pub on_gesture_move: Option<GestureMoveHaptic>,
    pub on_gesture_end: Option<HapticPulse>,
}

/// The configuration of the gesture device.
#[derive(Debug, Clone, Copy, PartialEq, Eq)]
pub struct GesturePadConfig {
    pub haptic: GestureHapticConfig,
}

impl Default for GesturePadConfig {
    fn default() -> (r: Self)
        ensures
            r.haptic.on_gesture_start is None,
            r.haptic.on_gesture_move is None,
            r.haptic.on_gesture_end is None,
    {
        GesturePadConfig {
            haptic: GestureHapticConfig {
                on_gesture_start: None,
                on_gesture_move: None,
                on_gesture_end: None,
            },
        }
    }
}

impl GesturePadConfig {
    /// What is played when a gesture begins.
    pub fn start_pulse(&self) -> (r: Option<HapticPulse>)
        ensures
            r == self.haptic.on_gesture_start,
    {
        self.haptic.on_gesture_start
    }

    /// What is played while a gesture goes on.
    pub fn move_pulse(&self) -> (r: Option<GestureMoveHaptic>)
        ensures
            r == self.haptic.on_gesture_move,
    {
        self.haptic.on_gesture_move
    }

    /// What is played when a gesture ends.
    pub fn end_pulse(&self) -> (r: Option<HapticPulse>)
        ensures
            r == self.haptic.on_gesture_end,
    {
        self.haptic.on_gesture_end
    }
}

/// What both pads report.
#[derive(Debug, Clone, Copy, PartialEq, Eq, Structural)]
pub struct CombinedPadFrame {
    pub lx: i32,
    pub ly: i32,
    pub ltouch: bool,
    pub lclick: bool,
    pub rx: i32,
    pub ry: i32,
    pub rtouch: bool,
    pub rclick: bool,
}

/// The course of a gesture.
#[derive(Debug, Clone, Copy, PartialEq, Eq, Structural)]
pub enum GestureEvent {
    Start(CombinedPadFrame),
    Move(CombinedPadFrame),
    End,
}

/// What the gesture device shows.
#[derive(Debug, Clone, Copy, PartialEq, Eq, Structural)]
pub struct GestureFrame {
    pub lx: i32,
    pub ly: i32,
    pub rx: i32,
    pub ry: i32,
    pub ltouch: bool,
    pub rtouch: bool,
    pub click: bool,
}

/// What a frame of both pads looks like on the gesture device.
pub open spec fn shown_frame(f: CombinedPadFrame) -> GestureFrame {
    GestureFrame {
        lx: f.lx,
        ly: f.ly,
        rx: f.rx,
        ry: f.ry,
        ltouch: f.ltouch,
        rtouch: f.rtouch,
        click: f.lclick || f.rclick,
    }
}

/// No finger on the gesture device.
pub open spec fn lifted_frame() -> GestureFrame {
    GestureFrame { lx: 0, ly: 0, rx: 0, ry: 0, ltouch: false, rtouch: false, click: false }
}

/// A finger's way: from where to where.
#[derive(Debug, Clone, Copy, PartialEq, Eq)]
pub struct Way {
    pub from: (i32, i32),
    pub to: (i32, i32),
}

/// The ways of the fingers between two frames. Only a pad that is touched in
/// both counts.
pub open spec fn ways(prev: CombinedPadFrame, curr: CombinedPadFrame) -> Seq<Way> {
    let left = Way { from: (prev.lx, prev.ly), to: (curr.lx, curr.ly) };
    let right = Way { from: (prev.rx, prev.ry), to: (curr.rx, curr.ry) };
    (if prev.ltouch && curr.ltouch {
        seq![left]
    } else {
        Seq::empty()
    }) + (if prev.rtouch && curr.rtouch {
        seq![right]
    } else {
        Seq::empty()
    })
}

/// The ways of the fingers between two frames.
pub fn frame_ways(prev: CombinedPadFrame, curr: CombinedPadFrame) -> (r: Vec<Way>)
    ensures
        r@ == ways(prev, curr),
{
    let mut r: Vec<Way> = Vec::new();
    if prev.ltouch && curr.ltouch {
        r.push(Way { from: (prev.lx, prev.ly), to: (curr.lx, curr.ly) });
    }
    if prev.rtouch && curr.rtouch {
        r.push(Way { from: (prev.rx, prev.ry), to: (curr.rx, curr.ry) });
    }
    assert(r@ =~= ways(prev, curr));
    r
}

/// What is known of a gesture between two events.
#[derive(Debug, Clone, Copy, PartialEq, Eq)]
pub struct GestureRun {
    pub previous: Option<CombinedPadFrame>,
}

/// What an event of a gesture leads to.
#[derive(Debug, PartialEq, Eq)]
pub struct GestureStep {
    pub shown: GestureFrame,
    /// What is played at once.
    pub pulse: Option<HapticPulse>,
    /// The ways that count.
    pub ways: Vec<Way>,
    /// What is played when enough ways came together.
    pub movement: Option<GestureMoveHaptic>,
    /// Whether the way that was counted so far is forgotten.
    pub reset: bool,
}

impl GestureRun {
    /// No gesture is going on.
    pub fn new() -> (r: GestureRun)
        ensures
            r.previous is None,
    {
        GestureRun { previous: None }
    }

    /// Take an event of a gesture.
    pub fn step(&mut self, event: GestureEvent, config: &GesturePadConfig) -> (r: GestureStep)
        ensures
            match event {
                GestureEvent::Start(f) => {
                    &&& final(self).previous == Some(f)
                    &&& r.shown == shown_frame(f)
                    &&& r.pulse == config.haptic.on_gesture_start
                    &&& r.ways@ == Seq::<Way>::empty()
                    &&& r.movement is None
                    &&& r.reset
                },
                GestureEvent::Move(f) => {
                    &&& final(self).previous == Some(f)
                    &&& r.shown == shown_frame(f)
                    &&& r.pulse is None
                    &&& r.ways@ == if config.haptic.on_gesture_move is Some
                        && old(self).previous is Some {
                        ways(old(self).previous->0, f)
                    } else {
                        Seq::<Way>::empty()
                    }
                    &&& r.movement == config.haptic.on_gesture_move
                    &&& !r.reset
                },
                GestureEvent::End => {
                    &&& final(self).previous is None
                    &&& r.shown == lifted_frame()
                    &&& r.pulse == config.haptic.on_gesture_end
                    &&& r.ways@ == Seq::<Way>::empty()
                    &&& r.movement is None
                    &&& r.reset
                },
            },
    {
        match event {
            GestureEvent::Start(f) => {
                self.previous = Some(f);
                GestureStep {
                    shown: show(f),
                    pulse: config.start_pulse(),
                    ways: Vec::new(),
                    movement: None,
                    reset: true,
                }
            },
            GestureEvent::Move(f) => {
                let movement: Option<GestureMoveHaptic> = config.move_pulse();
                let ways: Vec<Way> = match (movement, self.previous) {
                    (Some(_), Some(p)) => frame_ways(p, f),
                    _ => Vec::new(),
                };
                self.previous = Some(f);
                GestureStep { shown: show(f), pulse: None, ways, movement, reset: false }
            },
            GestureEvent::End => {
                self.previous = None;
                GestureStep {
                    shown: GestureFrame {
                        lx: 0,
                        ly: 0,
                        rx: 0,
                        ry: 0,
                        ltouch: false,
                        rtouch: false,
                        click: false,
                    },
                    pulse: config.end_pulse(),
                    ways: Vec::new(),
                    movement: None,
                    reset: true,
                }
            },
        }
    }
}

fn show(f: CombinedPadFrame) -> (r: GestureFrame)
    ensures
        r == shown_frame(f),
{
    GestureFrame {
        lx: f.lx,
        ly: f.ly,
        rx: f.rx,
        ry: f.ry,
        ltouch: f.ltouch,
        rtouch: f.rtouch,
        click: f.lclick || f.rclick,
    }
}

// ── From the reports to the pads ─────────────────────────────────────────────

/// A frame as the gesture device takes it.
pub open spec fn combined(f: PadFrame) -> CombinedPadFrame {
    CombinedPadFrame {
        lx: f.lx,
        ly: f.ly,
        ltouch: f.ltouch,
        lclick: f.lclick,
        rx: f.rx,
        ry: f.ry,
        rtouch: f.rtouch,
        rclick: f.rclick,
    }
}

/// Whether a gesture goes on after a frame: it begins when both pads are
/// touched, and lasts until neither is.
pub open spec fn gesture_goes_on(in_gesture: bool, gestures: bool, f: PadFrame) -> bool {
    gestures && (if in_gesture {
        f.ltouch || f.rtouch
    } else {
        f.ltouch && f.rtouch
    })
}

/// What a frame is to a gesture.
pub open spec fn gesture_event(in_gesture: bool, goes_on: bool, f: PadFrame) -> Option<
    GestureEvent,
> {
    if goes_on {
        Some(
            if in_gesture {
                GestureEvent::Move(combined(f))
            } else {
                GestureEvent::Start(combined(f))
            },
        )
    } else if in_gesture {
        Some(GestureEvent::End)
    } else {
        None
    }
}

/// Where a frame goes: whether a gesture goes on after it, what it is to the
/// gesture device, and whether each of the pads by itself is touched. While a
/// gesture goes on neither is.
pub fn route(in_gesture: bool, gestures: bool, f: PadFrame) -> (r: (
    bool,
    Option<GestureEvent>,
    bool,
    bool,
))
    ensures
        r.0 == gesture_goes_on(in_gesture, gestures, f),
        r.1 == gesture_event(in_gesture, r.0, f),
        r.2 == (f.ltouch && !r.0),
        r.3 == (f.rtouch && !r.0),
{
    let goes_on: bool = gestures && (if in_gesture {
        f.ltouch || f.rtouch
    } else {
        f.ltouch && f.rtouch
    });
    let both: CombinedPadFrame = CombinedPadFrame {
        lx: f.lx,
        ly: f.ly,
        ltouch: f.ltouch,
        lclick: f.lclick,
        rx: f.rx,
        ry: f.ry,
        rtouch: f.rtouch,
        rclick: f.rclick,
    };
    let event: Option<GestureEvent> = match (in_gesture, goes_on) {
        (false, true) => Some(GestureEvent::Start(both)),
        (true, true) => Some(GestureEvent::Move(both)),
        (true, false) => Some(GestureEvent::End),
        (false, false) => None,
    };
    (goes_on, event, f.ltouch && !goes_on, f.rtouch && !goes_on)
}

/// What the pads show of a frame: nothing while a game has them to itself.
pub fn frame_for_desktop(gaming_mode: bool, f: PadFrame) -> (r: PadFrame)
    ensures
        r == (if gaming_mode {
            PadFrame {
                lx: 0,
                ly: 0,
                ltouch: false,
                lclick: false,
                rx: 0,
                ry: 0,
                rtouch: false,
                rclick: false,
            }
        } else {
            f
        }),
{
    if gaming_mode {
        PadFrame {
            lx: 0,
            ly: 0,
            ltouch: false,
            lclick: false,
            rx: 0,
            ry: 0,
            rtouch: false,
            rclick: false,
        }
    } else {
        f
    }
}

/// Whether a gesture goes on after a run of frames.
pub open spec fn gesture_after(in_gesture: bool, gestures: bool, frames: Seq<PadFrame>) -> bool
    decreases frames.len(),
{
    if frames.len() == 0 {
        in_gesture
    } else {
        let before = gesture_after(in_gesture, gestures, frames.drop_last());
        gesture_goes_on(before, gestures, frames.last())
    }
}

/// A gesture lasts until both fingers are lifted: it goes on through every run
/// of frames that each have a finger on one pad, and ends with the first that
/// has none.
pub proof fn law_gesture_lasts_until_both_are_lifted(frames: Seq<PadFrame>, last: PadFrame)
    requires
        forall|i: int|
            0 <= i < frames.len() ==> (#[trigger] frames[i]).ltouch || frames[i].rtouch,
    ensures
        gesture_after(true, true, frames),
        gesture_after(true, true, frames.push(last)) == (last.ltouch || last.rtouch),
    decreases frames.len(),
{
    if frames.len() > 0 {
        let shorter = frames.drop_last();
        assert forall|i: int| 0 <= i < shorter.len() implies (#[trigger] shorter[i]).ltouch
            || shorter[i].rtouch by {
            assert(shorter[i] == frames[i]);
        }
        law_gesture_lasts_until_both_are_lifted(shorter, frames.last());
        assert(shorter.push(frames.last()) =~= frames);
        assert(frames[frames.len() - 1].ltouch || frames[frames.len() - 1].rtouch);
    }
    let all = frames.push(last);
    assert(all.drop_last() =~= frames);
    assert(all.last() == last);
    assert(gesture_after(true, true, all) == gesture_goes_on(
        gesture_after(true, true, frames),
        true,
        last,
    ));
}

// ── Setting up ───────────────────────────────────────────────────────────────

/// Whether a handler of a mode exists, or is meant to.
pub open spec fn known_mode(mode: Seq<char>) -> bool {
    mode == "disabled"@ || mode == "mt-trackpad"@ || mode == "scroll"@
}

/// What a trackpad configuration sets up.
#[derive(Debug, Clone, Copy, PartialEq, Eq, Structural)]
pub struct TrackpadPlan {
    /// Whether the side's mode is one that nobody knows.
    pub left_unknown: bool,
    pub right_unknown: bool,
    /// Whether the side acts as a touchpad.
    pub left_touchpad: bool,
    pub right_touchpad: bool,
    /// Whether the gesture device is there.
    pub gestures: bool,
}

/// What a trackpad configuration sets up. An unknown mode sets up nothing.
pub fn trackpad_plan(trackpad: &TrackpadConfig) -> (r: TrackpadPlan)
    ensures
        r == (TrackpadPlan {
            left_unknown: !known_mode(trackpad.left.mode@),
            right_unknown: !known_mode(trackpad.right.mode@),
            left_touchpad: trackpad.left.mode@ == "mt-trackpad"@,
            right_touchpad: trackpad.right.mode@ == "mt-trackpad"@,
            gestures: trackpad.combined_gesture_device,
        }),
{
    TrackpadPlan {
        left_unknown: !is_known_mode(trackpad.left.mode.as_str()),
        right_unknown: !is_known_mode(trackpad.right.mode.as_str()),
        left_touchpad: same_text(trackpad.left.mode.as_str(), "mt-trackpad"),
        right_touchpad: same_text(trackpad.right.mode.as_str(), "mt-trackpad"),
        gestures: trackpad.combined_gesture_device,
    }
}

fn is_known_mode(mode: &str) -> (r: bool)
    ensures
        r == known_mode(mode@),
{
    same_text(mode, "disabled") || same_text(mode, "mt-trackpad") || same_text(mode, "scroll")
}

// ── What the pads are for ────────────────────────────────────────────────────

/// A gesture begins with the frame that has a finger on each pad, moves with
/// every later frame that has a finger on one, and ends with the frame that has
/// none. Without the gesture device there are no gestures, and one that was
/// going on ends.
pub proof fn law_gestures_begin_with_two_fingers(f: PadFrame)
    ensures
        gesture_goes_on(false, true, f) == (f.ltouch && f.rtouch),
        gesture_goes_on(true, true, f) == (f.ltouch || f.rtouch),
        forall|before: bool| !gesture_goes_on(before, false, f),
        f.ltouch && f.rtouch ==> (gesture_event(
            false,
            gesture_goes_on(false, true, f),
            f,
        ) matches Some(GestureEvent::Start(c)) && c.lx == f.lx && c.ly == f.ly && c.rx == f.rx
            && c.ry == f.ry && c.ltouch && c.rtouch && c.lclick == f.lclick && c.rclick
            == f.rclick),
        !(f.ltouch && f.rtouch) ==> gesture_event(
            false,
            gesture_goes_on(false, true, f),
            f,
        ) is None,
        f.ltouch || f.rtouch ==> (gesture_event(
            true,
            gesture_goes_on(true, true, f),
            f,
        ) matches Some(GestureEvent::Move(c)) && c.lx == f.lx && c.ly == f.ly && c.rx == f.rx
            && c.ry == f.ry && c.ltouch == f.ltouch && c.rtouch == f.rtouch && c.lclick
            == f.lclick && c.rclick == f.rclick),
        !f.ltouch && !f.rtouch ==> gesture_event(true, gesture_goes_on(true, true, f), f) == Some(
            GestureEvent::End,
        ),
        gesture_event(true, gesture_goes_on(true, false, f), f) == Some(GestureEvent::End),
        gesture_event(false, gesture_goes_on(false, false, f), f) is None,
{
}

/// The gesture device shows both fingers where they are. It is clicked while
/// either pad is, and shows nothing once the fingers are lifted.
pub proof fn law_gesture_device_shows_the_fingers(f: CombinedPadFrame)
    ensures
        shown_frame(f).lx == f.lx && shown_frame(f).ly == f.ly,
        shown_frame(f).rx == f.rx && shown_frame(f).ry == f.ry,
        shown_frame(f).ltouch == f.ltouch && shown_frame(f).rtouch == f.rtouch,
        shown_frame(f).click <==> f.lclick || f.rclick,
        !lifted_frame().ltouch && !lifted_frame().rtouch && !lifted_frame().click,
        lifted_frame().lx == 0 && lifted_frame().ly == 0,
        lifted_frame().rx == 0 && lifted_frame().ry == 0,
{
}

/// The way of a finger counts from where it was to where it is, the left one
/// first, and only where it was on the pad all along.
pub proof fn law_ways_lead_from_before_to_now(prev: CombinedPadFrame, curr: CombinedPadFrame)
    ensures
        ways(prev, curr).len() == (if prev.ltouch && curr.ltouch {
            1int
        } else {
            0
        }) + (if prev.rtouch && curr.rtouch {
            1int
        } else {
            0
        }),
        prev.ltouch && curr.ltouch ==> ways(prev, curr)[0].from == (prev.lx, prev.ly) && ways(
            prev,
            curr,
        )[0].to == (curr.lx, curr.ly),
        prev.rtouch && curr.rtouch ==> ways(prev, curr).last().from == (prev.rx, prev.ry) && ways(
            prev,
            curr,
        ).last().to == (curr.rx, curr.ry),
{
}

/// A click is felt even where nothing is configured: as one pulse of eight
/// milliseconds. What is configured is played as it stands.
pub proof fn law_clicks_are_felt(chain: HapticChain)
    ensures
        chain_or_one(Some(chain)) == chain@,
        chain_or_one(None).len() == 1,
        chain_or_one(None)[0].pulse.duration_us == 8000,
        chain_or_one(None)[0].pulse.interval_us == 8000,
        chain_or_one(None)[0].pulse.count == 1,
        chain_or_one(None)[0].pulse.gain_db == 0,
        chain_or_one(None)[0].pause_ms is None,
{
}

/// A press is the change to clicked and a release the change back; a frame
/// that changes nothing is neither.
pub proof fn law_clicks_have_two_ends(before: bool, now: bool)
    ensures
        edge(before, now) == Some(ClickEdge::Press) <==> !before && now,
        edge(before, now) == Some(ClickEdge::Release) <==> before && !now,
        edge(before, now) is None <==> before == now,
{
}

/// There are three modes, and no other is known.
pub proof fn law_modes_are_known_by_their_names(mode: Seq<char>)
    ensures
        known_mode("disabled"@),
        known_mode("mt-trackpad"@),
        known_mode("scroll"@),
        mode != "disabled"@ && mode != "mt-trackpad"@ && mode != "scroll"@ ==> !known_mode(mode),
{
}

} // verus!
