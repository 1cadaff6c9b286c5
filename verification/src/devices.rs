//! Finding the devices that base configurations are for, starting their
//! readers, and sharing a device with others.

use crate::config::{device_matches, Config, DeviceClass, DeviceDeclaration};
use crate::lizard_mode::{lizard_setting, suppression_of, LizardModeSuppression};
use crate::order::views;
use crate::text::{chars_of, contains_text, joined, listed, lists, occurs, part, same_text, text_in};
use vstd::prelude::*;

verus! {

// ── Matching ─────────────────────────────────────────────────────────────────

/// A name without its slashes.
pub open spec fn unslashed(s: Seq<char>) -> Seq<char>
    decreases s.len(),
{
    if s.len() == 0 {
        s
    } else if s.last() == '/' {
        unslashed(s.drop_last())
    } else {
        unslashed(s.drop_last()).push(s.last())
    }
}

/// A name without its slashes.
pub fn without_slashes(s: &str) -> (r: String)
    ensures
        r@ == unslashed(s@),
{
    let x: Vec<char> = chars_of(s);
    let mut r: String = String::new();
    let mut i: usize = 0;
    assert(s@.take(0) =~= Seq::<char>::empty());
    while i < x.len()
        invariant
            x@ == s@,
            i <= x@.len(),
            r@ == unslashed(s@.take(i as int)),
        decreases x@.len() - i,
    {
        if x[i] != '/' {
            let one: String = part(s, i, i + 1);
            let ghost before = r@;
            r = joined(r.as_str(), one.as_str());
            assert(r@ =~= before.push(s@[i as int]));
        }
        i = i + 1;
        proof {
            assert(s@.take(i as int).drop_last() =~= s@.take(i - 1));
            assert(s@.take(i as int).last() == s@[i - 1]);
        }
    }
    assert(s@.take(i as int) =~= s@);
    r
}

/// The first of the devices called `names` that a declaration is for; the
/// length where there is none.
pub open spec fn first_device(declared: Seq<String>, names: Seq<Seq<char>>) -> int
    decreases names.len(),
{
    if names.len() == 0 || device_matches(declared, unslashed(names[0])) {
        0
    } else {
        1 + first_device(declared, names.drop_first())
    }
}

/// The first of the devices called `names` that a declaration is for.
pub fn find_device(declaration: &DeviceDeclaration, names: &Vec<String>) -> (r: Option<usize>)
    ensures
        match r {
            Some(i) => i == first_device(declaration.names@, views(names@)) && i < names@.len(),
            None => first_device(declaration.names@, views(names@)) == names@.len(),
        },
{
    let ghost all = views(names@);
    let ghost d = declaration.names@;
    let mut i: usize = 0;
    assert(all.skip(0) =~= all);
    while i < names.len()
        invariant
            i <= names@.len(),
            all == views(names@),
            d == declaration.names@,
            first_device(d, all) == i + first_device(d, all.skip(i as int)),
        decreases names@.len() - i,
    {
        proof {
            assert(all.skip(i as int)[0] == names@[i as int]@);
            assert(all.skip(i as int).drop_first() =~= all.skip(i + 1));
        }
        let name: String = without_slashes(names[i].as_str());
        if declaration.matches_evdev_name(name.as_str()) {
            return Some(i);
        }
        i = i + 1;
    }
    None
}

/// How the device of a base configuration is started.
#[derive(Debug, Clone, Copy, PartialEq, Eq)]
pub struct DevicePlan {
    /// Which of the devices it is.
    pub device: usize,
    /// Whether it is read through its raw interface.
    pub hid_steam: bool,
    /// Whether it is taken for this program alone.
    pub grab: bool,
    pub lizard_mode: Option<LizardModeSuppression>,
}

/// Whether `p` is how the device of a base configuration is started: none
/// where no device of the machine is meant.
pub open spec fn is_plan(p: Option<DevicePlan>, c: Config, names: Seq<Seq<char>>) -> bool {
    match c.device {
        Some(d) => {
            let i = first_device(d.names@, names);
            if i < names.len() {
                p matches Some(plan) && {
                    &&& plan.device == i
                    &&& plan.hid_steam == (d.class == DeviceClass::HidSteam)
                    &&& plan.grab == (c.settings@.contains_key("GRAB_DEVICE"@)
                        && c.settings@["GRAB_DEVICE"@] == "true"@)
                    &&& plan.lizard_mode == suppression_of(lizard_setting(c.settings@))
                }
            } else {
                p is None
            }
        },
        None => p is None,
    }
}

/// How the device of a base configuration is started.
pub fn device_plan(config: &Config, names: &Vec<String>) -> (r: Option<DevicePlan>)
    ensures
        is_plan(r, *config, views(names@)),
{
    let declaration: &DeviceDeclaration = match &config.device {
        Some(d) => d,
        None => {
            return None;
        },
    };
    match find_device(declaration, names) {
        Some(device) => Some(
            DevicePlan {
                device,
                hid_steam: declaration.class == DeviceClass::HidSteam,
                grab: match config.settings.get(&"GRAB_DEVICE".to_owned()) {
                    Some(v) => same_text(v.as_str(), "true"),
                    None => false,
                },
                lizard_mode: match config.settings.get(&"SUPPRESS_LIZARD_MODE".to_owned()) {
                    Some(v) => LizardModeSuppression::from_setting(v.as_str()),
                    None => LizardModeSuppression::from_setting("buttons,mouse"),
                },
            },
        ),
        None => None,
    }
}

/// What is known of the device itself: whether it has a pen, and how far its
/// wheel turns. Neither matters of the controller.
pub fn device_facts(hid_steam: bool, has_pen: bool, wheel_maximum: Option<i32>) -> (r:
    crate::axes::DeviceFacts)
    ensures
        r.is_tablet == (!hid_steam && has_pen),
        r.max_abs_wheel == (if hid_steam {
            0
        } else {
            match wheel_maximum {
                Some(m) => m,
                None => 0,
            }
        }),
{
    crate::axes::DeviceFacts {
        is_tablet: !hid_steam && has_pen,
        max_abs_wheel: if hid_steam {
            0
        } else {
            match wheel_maximum {
                Some(m) => m,
                None => 0,
            }
        },
    }
}

// ── One reader for one controller ────────────────────────────────────────────

/// What is done about a controller's device file.
#[derive(Debug, Clone, Copy, PartialEq, Eq, Structural)]
pub enum Claim {
    Start,
    /// Another device file led to the same controller already.
    Duplicate,
    /// It has no raw interface.
    NoSibling,
}

/// How far the program has come.
#[derive(Debug, Clone, Copy, PartialEq, Eq, Structural)]
pub enum AppLifecycle {
    /// The devices were looked at.
    Ready,
}

/// What the display is told of the program.
#[derive(Debug, Clone, PartialEq, Eq)]
pub enum StateCommand {
    SetLifecycle(AppLifecycle),
    /// Show an error in the slot of an id.
    SetError { id: String, message: String, severity: &'static str },
    /// Empty the slot of an id.
    ClearError { id: String },
}

/// What is said where no device was found.
pub open spec fn no_device_message(user_has_access: bool) -> Seq<char> {
    if user_has_access {
        "No matching device found — check that [device] names in the base config matches the evdev device name from 'evtest'"@
    } else {
        "No matching device found — user may lack event device access"@
    }
}

/// The controllers that were claimed and the readers that were started.
pub struct Scan {
    /// The raw interfaces that are claimed.
    pub claimed: Vec<String>,
    /// Whether any reader was started.
    pub found: bool,
}

impl Scan {
    pub fn new() -> (r: Scan)
        ensures
            r.claimed@ == Seq::<String>::empty(),
            !r.found,
    {
        Scan { claimed: Vec::new(), found: false }
    }

    /// Claim the controller with a raw interface. The first device file that
    /// leads to it wins.
    pub fn claim(&mut self, hidraw: &Option<String>) -> (r: Claim)
        ensures
            final(self).found == old(self).found,
            match *hidraw {
                None => r == Claim::NoSibling && final(self).claimed@ == old(self).claimed@,
                Some(h) => if listed(old(self).claimed@, h@) {
                    r == Claim::Duplicate && final(self).claimed@ == old(self).claimed@
                } else {
                    r == Claim::Start && final(self).claimed@ == old(self).claimed@.push(h)
                },
            },
    {
        match hidraw {
            None => Claim::NoSibling,
            Some(h) => {
                if lists(&self.claimed, h.as_str()) {
                    Claim::Duplicate
                } else {
                    self.claimed.push(h.clone());
                    Claim::Start
                }
            },
        }
    }

    /// A reader was started.
    pub fn started(&mut self)
        ensures
            final(self).found,
            final(self).claimed == old(self).claimed,
    {
        self.found = true;
    }

    /// What the display is told once all devices were looked at: that the
    /// program is ready in any case, and that there is no device, or that there
    /// is one after all.
    pub fn closing(&self, user_has_access: bool) -> (r: Vec<StateCommand>)
        ensures
            r@.len() == 2,
            r@[0] == StateCommand::SetLifecycle(AppLifecycle::Ready),
            if self.found {
                r@[1] matches StateCommand::ClearError { id } && id@ == "no_device"@
            } else {
                r@[1] matches StateCommand::SetError { id, message, severity } && {
                    &&& id@ == "no_device"@
                    &&& message@ == no_device_message(user_has_access)
                    &&& severity@ == "error"@
                }
            },
    {
        let mut r: Vec<StateCommand> = Vec::new();
        r.push(StateCommand::SetLifecycle(AppLifecycle::Ready));
        if self.found {
            r.push(StateCommand::ClearError { id: "no_device".to_owned() });
        } else {
            let message: &str = if user_has_access {
                "No matching device found — check that [device] names in the base config matches the evdev device name from 'evtest'"
            } else {
                "No matching device found — user may lack event device access"
            };
            r.push(
                StateCommand::SetError {
                    id: "no_device".to_owned(),
                    message: message.to_owned(),
                    severity: "error",
                },
            );
        }
        r
    }
}

/// What is claimed stays claimed, so that no controller is started twice.
pub proof fn law_claimed_stays_claimed(claimed: Seq<String>, next: String, earlier: Seq<char>)
    ensures
        listed(claimed.push(next), next@),
        listed(claimed, earlier) ==> listed(claimed.push(next), earlier),
{
    let more = claimed.push(next);
    assert(more[claimed.len() as int]@ == next@);
    if listed(claimed, earlier) {
        let i = choose|i: int| 0 <= i < claimed.len() && (#[trigger] claimed[i])@ == earlier;
        assert(more[i]@ == earlier);
    }
}

/// Whether the user can open devices, from the groups that the user is in.
pub fn has_device_access(groups: &Option<String>) -> (r: bool)
    ensures
        r == match text_in(*groups) {
            Some(g) => occurs(g, "input"@) || occurs(g, "root"@),
            None => false,
        },
{
    match groups {
        Some(g) => contains_text(g.as_str(), "input") || contains_text(g.as_str(), "root"),
        None => false,
    }
}

/// Whether running games are looked for: as the first base configuration says,
/// and yes without one.
pub fn detects_games(bases: &Vec<Config>) -> (r: bool)
    ensures
        r == (bases@.len() == 0 || bases@[0].gaming_mode_config.auto_detect_steam_games),
{
    if bases.len() == 0 {
        true
    } else {
        bases[0].gaming_mode_config.auto_detect_steam_games
    }
}

// ── Sharing a device ─────────────────────────────────────────────────────────

/// How an attempt to take a device ended.
#[derive(Debug, Clone, Copy, PartialEq, Eq, Structural)]
pub enum GrabAttempt {
    Taken,
    /// Somebody else has it.
    Busy,
    Failed,
}

/// What follows an attempt to take a device.
#[derive(Debug, Clone, Copy, PartialEq, Eq, Structural)]
pub enum GrabNext {
    Done,
    /// Try again after so many milliseconds.
    Retry(u64),
    TimedOut,
    GiveUp,
}

/// How long a device that somebody else has is waited for, in milliseconds.
pub const GRAB_TIMEOUT_MS: u64 = 5000;

/// How long to wait between two attempts, in milliseconds.
pub const GRAB_RETRY_MS: u64 = 100;

/// What follows an attempt to take a device, so many milliseconds after the
/// first. Only a busy device is tried again.
pub fn after_attempt(attempt: GrabAttempt, waited_ms: u64) -> (r: GrabNext)
    ensures
        r == match attempt {
            GrabAttempt::Taken => GrabNext::Done,
            GrabAttempt::Busy => if waited_ms >= GRAB_TIMEOUT_MS {
                GrabNext::TimedOut
            } else {
                GrabNext::Retry(GRAB_RETRY_MS)
            },
            GrabAttempt::Failed => GrabNext::GiveUp,
        },
{
    match attempt {
        GrabAttempt::Taken => GrabNext::Done,
        GrabAttempt::Busy => if waited_ms >= GRAB_TIMEOUT_MS {
            GrabNext::TimedOut
        } else {
            GrabNext::Retry(GRAB_RETRY_MS)
        },
        GrabAttempt::Failed => GrabNext::GiveUp,
    }
}

/// What the reader of a device that is given up on demand is told.
#[derive(Debug, Clone, Copy, PartialEq, Eq, Structural)]
pub enum YieldEvent {
    Release,
    Regrab,
}

/// What a signal on the bus leads to.
#[derive(Debug, Clone, Copy, PartialEq, Eq, Structural)]
pub struct GrabReaction {
    /// Whether all held output keys are let go.
    pub release_all: bool,
    /// What the reader is told.
    pub tell: Option<YieldEvent>,
    /// Whether the device is announced to be taken again.
    pub announce: bool,
}

/// Who listens for others that want a device.
pub struct GrabListener {
    pub device_path: String,
    /// Whether the device is taken here, and so has to be given up and taken
    /// again.
    pub holds: bool,
    /// Whether the announcement from here is still to be heard.
    pub echo: bool,
}

/// Nothing is to be done.
pub open spec fn no_reaction() -> GrabReaction {
    GrabReaction { release_all: false, tell: None, announce: false }
}

/// What a signal leads to, and whether the announcement from here is still to
/// be heard afterwards.
pub open spec fn heard(l: GrabListener, member: Seq<char>, path: Seq<char>) -> (GrabReaction, bool) {
    if path != l.device_path@ {
        (no_reaction(), l.echo)
    } else if member == "GrabPending"@ {
        if l.echo {
            (no_reaction(), false)
        } else {
            (
                GrabReaction {
                    release_all: true,
                    tell: if l.holds {
                        Some(YieldEvent::Release)
                    } else {
                        None
                    },
                    announce: false,
                },
                false,
            )
        }
    } else if member == "GrabReleased"@ && l.holds {
        (
            GrabReaction { release_all: false, tell: Some(YieldEvent::Regrab), announce: true },
            true,
        )
    } else {
        (no_reaction(), l.echo)
    }
}

impl GrabListener {
    pub fn new(device_path: String, holds: bool) -> (r: GrabListener)
        ensures
            r == (GrabListener { device_path, holds, echo: false }),
    {
        GrabListener { device_path, holds, echo: false }
    }

    /// Hear a signal about a device. Somebody who is about to take it makes all
    /// keys be let go, and the device be given up; once it is free again it is
    /// announced and taken again. The announcement from here is not taken for
    /// one of somebody else.
    pub fn hear(&mut self, member: &str, path: &str) -> (r: GrabReaction)
        ensures
            final(self).device_path == old(self).device_path,
            final(self).holds == old(self).holds,
            (r, final(self).echo) == heard(*old(self), member@, path@),
    {
        let mut r = GrabReaction { release_all: false, tell: None, announce: false };
        if !same_text(path, self.device_path.as_str()) {
            return r;
        }
        if same_text(member, "GrabPending") {
            if self.echo {
                self.echo = false;
            } else {
                r.release_all = true;
                if self.holds {
                    r.tell = Some(YieldEvent::Release);
                }
            }
        } else if same_text(member, "GrabReleased") && self.holds {
            r.tell = Some(YieldEvent::Regrab);
            r.announce = true;
            self.echo = true;
        }
        r
    }
}

/// When a device is free again and taken again here, the announcement of that
/// is not heard as a wish of somebody else: nothing is given up. The next one
/// is heard again.
pub proof fn law_own_announcement_is_no_wish(l: GrabListener)
    requires
        l.holds,
    ensures
        ({
            let (again, echo) = heard(l, "GrabReleased"@, l.device_path@);
            let (own, later) = heard(GrabListener { echo, ..l }, "GrabPending"@, l.device_path@);
            let (wish, _) = heard(
                GrabListener { echo: later, ..l },
                "GrabPending"@,
                l.device_path@,
            );
            &&& again.announce && again.tell == Some(YieldEvent::Regrab)
            &&& own == no_reaction()
            &&& wish.release_all && wish.tell == Some(YieldEvent::Release)
        }),
{
    reveal_strlit("GrabPending");
    reveal_strlit("GrabReleased");
    assert("GrabPending"@.len() != "GrabReleased"@.len());
}

// ── What devices are for ─────────────────────────────────────────────────────

/// Slashes go and everything else stays, in its order.
pub proof fn law_only_slashes_are_taken(a: Seq<char>, b: Seq<char>)
    ensures
        unslashed(a + b) == unslashed(a) + unslashed(b),
        !a.contains('/') ==> unslashed(a) == a,
        unslashed(seq!['/']) == Seq::<char>::empty(),
    decreases a.len() + b.len(),
{
    if b.len() > 0 {
        law_only_slashes_are_taken(a, b.drop_last());
        assert((a + b).drop_last() =~= a + b.drop_last());
        assert((a + b).last() == b.last());
        assert(unslashed(a + b) =~= unslashed(a) + unslashed(b));
    } else {
        assert(a + b =~= a);
        assert(unslashed(a) + unslashed(b) =~= unslashed(a));
    }
    if !a.contains('/') && a.len() > 0 {
        let init = a.drop_last();
        assert(a.contains(a.last()));
        if init.contains('/') {
            let i = choose|i: int| 0 <= i < init.len() && init[i] == '/';
            assert(a[i] == '/');
        }
        law_only_slashes_are_taken(init, Seq::empty());
        assert(init.push(a.last()) =~= a);
    }
    let one = seq!['/'];
    assert(one.drop_last() =~= Seq::<char>::empty());
    assert(unslashed(one.drop_last()) == one.drop_last());
}

/// A base configuration is for the first device in whose name, without its
/// slashes, one of the declared names occurs.
pub proof fn law_first_fitting_device_is_meant(declared: Seq<String>, names: Seq<Seq<char>>)
    ensures
        0 <= first_device(declared, names) <= names.len(),
        first_device(declared, names) < names.len() ==> exists|k: int|
            0 <= k < declared.len() && occurs(
                unslashed(names[first_device(declared, names)]),
                (#[trigger] declared[k])@,
            ),
        forall|i: int, k: int|
            #![trigger names[i], declared[k]]
            0 <= i < first_device(declared, names) && 0 <= k < declared.len() ==> !occurs(
                unslashed(names[i]),
                declared[k]@,
            ),
    decreases names.len(),
{
    if names.len() > 0 && !device_matches(declared, unslashed(names[0])) {
        let rest = names.drop_first();
        law_first_fitting_device_is_meant(declared, rest);
        assert forall|i: int, k: int|
            #![trigger names[i], declared[k]]
            0 <= i < first_device(declared, names) && 0 <= k < declared.len() implies !occurs(
            unslashed(names[i]),
            declared[k]@,
        ) by {
            if i > 0 {
                assert(names[i] == rest[i - 1]);
            }
        }
    }
}

/// A device is read through its raw interface where it is declared to be a
/// Steam controller, and is taken for this program alone where the setting says
/// `true` and nowhere else. Without a declaration, or without a device that
/// fits, nothing is started.
pub proof fn law_devices_start_as_they_are_declared(
    p: Option<DevicePlan>,
    c: Config,
    names: Seq<Seq<char>>,
)
    requires
        is_plan(p, c, names),
    ensures
        c.device is None ==> p is None,
        p is Some ==> c.device is Some && p->0.device < names.len() && p->0.hid_steam
            == (c.device->0.class is HidSteam),
        p is Some && !c.settings@.contains_key("GRAB_DEVICE"@) ==> !p->0.grab,
        p is Some && c.settings@.contains_key("GRAB_DEVICE"@) ==> p->0.grab
            == (c.settings@["GRAB_DEVICE"@] == "true"@),
        c.device is Some && (exists|i: int, k: int|
            #![trigger names[i], c.device->0.names@[k]]
            0 <= i < names.len() && 0 <= k < c.device->0.names@.len() && occurs(
                unslashed(names[i]),
                c.device->0.names@[k]@,
            )) ==> p is Some,
{
    if c.device is Some {
        law_first_fitting_device_is_meant(c.device->0.names@, names);
    }
}

/// Somebody else's wish for the device makes all keys be let go, and makes a
/// device that is held here be given up. Once it is free again, it is announced
/// and taken again, where it was held. A signal about another device, and any
/// other signal, does nothing.
pub proof fn law_others_are_given_way(l: GrabListener, member: Seq<char>, path: Seq<char>)
    ensures
        path != l.device_path@ ==> {
            let (r, echo) = heard(l, member, path);
            !r.release_all && r.tell is None && !r.announce && echo == l.echo
        },
        !l.echo ==> {
            let (r, echo) = heard(l, "GrabPending"@, l.device_path@);
            r.release_all && (l.holds ==> r.tell == Some(YieldEvent::Release)) && (!l.holds
                ==> r.tell is None) && !r.announce && !echo
        },
        l.echo ==> {
            let (r, echo) = heard(l, "GrabPending"@, l.device_path@);
            !r.release_all && r.tell is None && !r.announce && !echo
        },
        ({
            let (r, echo) = heard(l, "GrabReleased"@, l.device_path@);
            !r.release_all && (l.holds ==> r.tell == Some(YieldEvent::Regrab) && r.announce && echo)
                && (!l.holds ==> r.tell is None && !r.announce && echo == l.echo)
        }),
        member != "GrabPending"@ && member != "GrabReleased"@ ==> {
            let (r, echo) = heard(l, member, path);
            !r.release_all && r.tell is None && !r.announce && echo == l.echo
        },
{
    reveal_strlit("GrabPending");
    reveal_strlit("GrabReleased");
    assert("GrabPending"@.len() != "GrabReleased"@.len());
}

/// Who cannot open devices is told so; who can is told to look at the names.
pub proof fn law_missing_device_is_explained()
    ensures
        no_device_message(false)
            == "No matching device found — user may lack event device access"@,
        no_device_message(true)
            == "No matching device found — check that [device] names in the base config matches the evdev device name from 'evtest'"@,
{
}

/// A busy device is tried again ten times a second, for five seconds.
pub proof fn law_busy_device_is_waited_for()
    ensures
        GRAB_RETRY_MS * 10 == 1000,
        GRAB_TIMEOUT_MS == 5 * 1000,
{
}

} // verus!
