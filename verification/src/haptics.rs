//! Haptic pulses, the chains they are played in, and the feature report that
//! carries one to the trackpad's actuator.

use vstd::prelude::*;

verus! {

/// One pulse of a linear resonant actuator.
#[derive(Debug, Clone, Copy, PartialEq, Eq, Structural)]
pub struct HapticPulse {
    /// Pulse duration in microseconds.
    pub duration_us: u16,
    /// Time between pulses in microseconds.
    pub interval_us: u16,
    /// Number of pulses to fire.
    pub count: u16,
    /// Gain in decibels.
    pub gain_db: i8,
}

/// A pulse of a chain and the pause behind it.
#[derive(Debug, Clone, Copy, PartialEq, Eq)]
pub struct HapticChainStep {
    pub pulse: HapticPulse,
    pub pause_ms: Option<u64>,
}

/// Pulses played one after the other.
#[derive(Debug, Clone, PartialEq, Eq)]
pub enum HapticChain {
    Chain(Vec<HapticChainStep>),
}

impl View for HapticChain {
    type V = Seq<HapticChainStep>;

    open spec fn view(&self) -> Seq<HapticChainStep> {
        match *self {
            HapticChain::Chain(steps) => steps@,
        }
    }
}

/// The pulse that is played where none is configured.
pub open spec fn default_pulse() -> HapticPulse {
    HapticPulse { duration_us: 8000, interval_us: 8000, count: 1, gain_db: 0 }
}

impl HapticChain {
    /// The chain of one pulse.
    pub fn single(pulse: HapticPulse) -> (r: HapticChain)
        ensures
            r@ == seq![HapticChainStep { pulse, pause_ms: None }],
    {
        let mut steps: Vec<HapticChainStep> = Vec::new();
        steps.push(HapticChainStep { pulse, pause_ms: None });
        let r = HapticChain::Chain(steps);
        assert(r@ =~= seq![HapticChainStep { pulse, pause_ms: None }]);
        r
    }

    /// The chain that is played where none is configured: one pulse.
    pub fn built_in() -> (r: HapticChain)
        ensures
            r@ == seq![HapticChainStep { pulse: default_pulse(), pause_ms: None }],
    {
        HapticChain::single(
            HapticPulse { duration_us: 8000, interval_us: 8000, count: 1, gain_db: 0 },
        )
    }

    /// The same pulses again.
    pub fn copy(&self) -> (r: HapticChain)
        ensures
            r@ == self@,
    {
        match self {
            HapticChain::Chain(steps) => HapticChain::Chain(crate::event::copy_list(steps)),
        }
    }
}

/// Which actuators a pulse plays on.
#[derive(Debug, Clone, Copy, PartialEq, Eq, Structural)]
pub enum HapticPad {
    Left,
    Right,
    Both,
}

/// The number that stands for a pad in the report.
pub open spec fn pad_number(pad: HapticPad) -> u8 {
    match pad {
        HapticPad::Left => 1,
        HapticPad::Right => 0,
        HapticPad::Both => 2,
    }
}

impl HapticPad {
    /// The number that stands for the pad in the report. Observed on the
    /// hardware: 0 fires the right actuator and 1 the left one.
    pub fn wire_value(self) -> (r: u8)
        ensures
            r == pad_number(self),
    {
        match self {
            HapticPad::Left => 1,
            HapticPad::Right => 0,
            HapticPad::Both => 2,
        }
    }
}

/// One pulse for the actuator of a pad.
#[derive(Debug, Clone, Copy, PartialEq, Eq, Structural)]
pub struct HapticCommand {
    pub pad: HapticPad,
    /// Pulse duration in microseconds.
    pub duration_us: u16,
    /// Time between pulses in microseconds.
    pub interval_us: u16,
    /// Number of pulses to fire.
    pub count: u16,
    /// Gain in decibels.
    pub gain_db: i8,
}

/// The report that triggers a haptic pulse.
pub const ID_TRIGGER_HAPTIC_PULSE: u8 = 0x8F;

/// The low byte of a 16-bit number.
pub open spec fn low_byte(n: u16) -> u8 {
    (n % 256) as u8
}

/// The high byte of a 16-bit number.
pub open spec fn high_byte(n: u16) -> u8 {
    (n / 256) as u8
}

/// The byte of a signed 8-bit number in two's complement.
pub open spec fn byte_of_signed(n: i8) -> u8 {
    if n >= 0 {
        n as u8
    } else {
        (n + 256) as u8
    }
}

/// The payload of the report that triggers the pulse `cmd`.
pub open spec fn haptic_payload(cmd: HapticCommand) -> Seq<u8> {
    seq![
        0u8,
        0x8Fu8,
        8u8,
        pad_number(cmd.pad),
        low_byte(cmd.duration_us),
        high_byte(cmd.duration_us),
        low_byte(cmd.interval_us),
        high_byte(cmd.interval_us),
        low_byte(cmd.count),
        high_byte(cmd.count),
        byte_of_signed(cmd.gain_db),
    ]
}

/// The low byte of a 16-bit number.
pub fn low(n: u16) -> (r: u8)
    ensures
        r == low_byte(n),
{
    (n % 256) as u8
}

/// The high byte of a 16-bit number.
pub fn high(n: u16) -> (r: u8)
    ensures
        r == high_byte(n),
{
    (n / 256) as u8
}

fn signed_byte(n: i8) -> (r: u8)
    ensures
        r == byte_of_signed(n),
{
    if n >= 0 {
        n as u8
    } else {
        (n as i16 + 256) as u8
    }
}

/// The 65-byte feature report for a pulse: the payload, then zeros.
pub fn build_haptic_report(cmd: &HapticCommand) -> (buf: [u8; 65])
    ensures
        buf@.len() == 65,
        buf@.take(11) == haptic_payload(*cmd),
        forall|i: int| 11 <= i < 65 ==> #[trigger] buf@[i] == 0,
{
    let mut buf: [u8; 65] = [0u8; 65];
    buf[1] = ID_TRIGGER_HAPTIC_PULSE;
    buf[2] = 8;
    buf[3] = cmd.pad.wire_value();
    buf[4] = low(cmd.duration_us);
    buf[5] = high(cmd.duration_us);
    buf[6] = low(cmd.interval_us);
    buf[7] = high(cmd.interval_us);
    buf[8] = low(cmd.count);
    buf[9] = high(cmd.count);
    buf[10] = signed_byte(cmd.gain_db);
    assert(buf@.take(11) =~= haptic_payload(*cmd));
    buf
}

/// The request number by which the kernel is asked to send a feature report of
/// `len` bytes: direction read and write, type `H`, number 6, and the size.
pub open spec fn feature_request(len: u32) -> u32 {
    (3u32 << 30u32) | (0x48u32 << 8u32) | 0x06u32 | (len << 16u32)
}

/// The request number for a feature report of `len` bytes.
pub fn hidiocsfeature(len: usize) -> (r: u64)
    ensures
        r == feature_request(len as u32),
{
    let size: u32 = len as u32;
    ((3u32 << 30u32) | (0x48u32 << 8u32) | 0x06u32 | (size << 16u32)) as u64
}

/// The request number of a report of up to 16383 bytes names the size in its
/// own bits.
pub proof fn law_feature_request(len: u32)
    requires
        len < 0x4000,
    ensures
        feature_request(len) == 3 * 0x4000_0000 + len * 0x1_0000 + 0x48 * 0x100 + 6,
{
    assert((3u32 << 30u32) | (0x48u32 << 8u32) | 0x06u32 | (len << 16u32) == 3 * 0x4000_0000 + len
        * 0x1_0000 + 0x48 * 0x100 + 6) by (bit_vector)
        requires
            len < 0x4000,
    ;
}

/// A report tells every field of the pulse that it triggers: different pulses
/// are sent as different reports.
pub proof fn law_haptic_payload_injective(a: HapticCommand, b: HapticCommand)
    requires
        haptic_payload(a) == haptic_payload(b),
    ensures
        a == b,
{
    let p = haptic_payload(a);
    let q = haptic_payload(b);
    assert(p[3] == q[3] && p[4] == q[4] && p[5] == q[5] && p[6] == q[6] && p[7] == q[7] && p[8]
        == q[8] && p[9] == q[9] && p[10] == q[10]);
}

/// What the two pads report at one moment.
#[derive(Debug, Clone, Copy, PartialEq, Eq, Default, Structural)]
pub struct PadFrame {
    pub lx: i32,
    pub ly: i32,
    pub ltouch: bool,
    pub lclick: bool,
    pub rx: i32,
    pub ry: i32,
    pub rtouch: bool,
    pub rclick: bool,
}

/// A little-endian signed 16-bit number in two's complement.
pub open spec fn signed16(lo: u8, hi: u8) -> int {
    let n = lo as int + 256 * (hi as int);
    if n >= 0x8000 {
        n - 0x1_0000
    } else {
        n
    }
}

/// Whether the bit of weight `w` is set.
pub open spec fn has_bit(byte: u8, w: u8) -> bool {
    byte & w != 0
}

/// The little-endian signed 16-bit number of two bytes.
pub fn from_le_pair(lo: u8, hi: u8) -> (r: i32)
    ensures
        r == signed16(lo, hi),
{
    let n: i32 = lo as i32 + 256 * (hi as i32);
    if n >= 0x8000 {
        n - 0x1_0000
    } else {
        n
    }
}

/// What a report says of the pads: positions from byte 16 on, touch and click
/// bits from byte 10.
pub open spec fn pad_frame_of(buf: Seq<u8>, f: PadFrame) -> bool {
    &&& f.lx == signed16(buf[16], buf[17])
    &&& f.ly == signed16(buf[18], buf[19])
    &&& f.rx == signed16(buf[20], buf[21])
    &&& f.ry == signed16(buf[22], buf[23])
    &&& f.ltouch == has_bit(buf[10], 0x08)
    &&& f.rtouch == has_bit(buf[10], 0x10)
    &&& f.lclick == has_bit(buf[10], 0x02)
    &&& f.rclick == has_bit(buf[10], 0x04)
}

impl PadFrame {
    /// The frame that a 64-byte report holds.
    pub fn parse(buf: &[u8; 64]) -> (f: PadFrame)
        ensures
            pad_frame_of(buf@, f),
    {
        let bits: u8 = buf[10];
        PadFrame {
            lx: from_le_pair(buf[16], buf[17]),
            ly: from_le_pair(buf[18], buf[19]),
            ltouch: bits & 0x08 != 0,
            lclick: bits & 0x02 != 0,
            rx: from_le_pair(buf[20], buf[21]),
            ry: from_le_pair(buf[22], buf[23]),
            rtouch: bits & 0x10 != 0,
            rclick: bits & 0x04 != 0,
        }
    }
}

/// Whether a frame is passed on: it differs from the last one that was.
pub fn frame_is_news(last: Option<PadFrame>, frame: PadFrame) -> (r: bool)
    ensures
        r == (last != Some(frame)),
{
    match last {
        Some(f) => f != frame,
        None => true,
    }
}

// ── Laws ─────────────────────────────────────────────────────────────────────

/// A pulse can be read back from its report: the pad as 1 for the left, 0 for
/// the right and 2 for both, duration, interval and count with the low byte
/// first, and the gain in two's complement.
pub proof fn law_pulse_is_told_byte_by_byte(cmd: HapticCommand)
    ensures
        ({
            let p = haptic_payload(cmd);
            &&& p.len() == 11
            &&& p[0] == 0 && p[1] == 0x8f && p[2] == 8
            &&& cmd.pad == HapticPad::Left ==> p[3] == 1
            &&& cmd.pad == HapticPad::Right ==> p[3] == 0
            &&& cmd.pad == HapticPad::Both ==> p[3] == 2
            &&& p[4] + 256 * p[5] == cmd.duration_us
            &&& p[6] + 256 * p[7] == cmd.interval_us
            &&& p[8] + 256 * p[9] == cmd.count
            &&& p[10] == cmd.gain_db || p[10] == cmd.gain_db + 256
        }),
{
}

/// A frame holds what its report says: the positions as signed numbers with the
/// low byte first, left before right and sideways before upright, and the four
/// bits of byte 10.
pub proof fn law_pad_frames_are_read_byte_by_byte(buf: Seq<u8>, f: PadFrame)
    requires
        buf.len() == 64,
        pad_frame_of(buf, f),
    ensures
        f.lx == buf[16] + 256 * buf[17] - (if buf[17] >= 128 {
            65536int
        } else {
            0int
        }),
        f.ly == buf[18] + 256 * buf[19] - (if buf[19] >= 128 {
            65536int
        } else {
            0int
        }),
        f.rx == buf[20] + 256 * buf[21] - (if buf[21] >= 128 {
            65536int
        } else {
            0int
        }),
        f.ry == buf[22] + 256 * buf[23] - (if buf[23] >= 128 {
            65536int
        } else {
            0int
        }),
        f.lclick <==> buf[10] & 0x02 != 0,
        f.rclick <==> buf[10] & 0x04 != 0,
        f.ltouch <==> buf[10] & 0x08 != 0,
        f.rtouch <==> buf[10] & 0x10 != 0,
{
}

} // verus!
