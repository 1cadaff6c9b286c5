use deckery::haptics::{build_haptic_report, hidiocsfeature, HapticCommand, HapticPad, PadFrame};


/// Builds a synthetic 64-byte hidraw report with the given RPAD/LPAD
/// position and touch bits at the empirically-determined offsets
/// (see module docs), everything else zeroed. Clicks default to false —
/// use `make_report_full` when a test cares about click bits too.
fn make_report(lx: i16, ly: i16, ltouch: bool, rx: i16, ry: i16, rtouch: bool) -> [u8; 64] {
    make_report_full(lx, ly, ltouch, false, rx, ry, rtouch, false)
}

/// Like `make_report`, but also sets the click bits (byte 10, bits 1/2 —
/// see `PadFrame::parse` docs for why click lives in the same byte as
/// touch).
fn make_report_full(
    lx: i16,
    ly: i16,
    ltouch: bool,
    lclick: bool,
    rx: i16,
    ry: i16,
    rtouch: bool,
    rclick: bool,
) -> [u8; 64] {
    let mut buf = [0u8; 64];
    let mut byte10 = 0u8;
    if lclick {
        byte10 |= 0x02;
    }
    if rclick {
        byte10 |= 0x04;
    }
    if ltouch {
        byte10 |= 0x08;
    }
    if rtouch {
        byte10 |= 0x10;
    }
    buf[10] = byte10;
    buf[16..18].copy_from_slice(&lx.to_le_bytes());
    buf[18..20].copy_from_slice(&ly.to_le_bytes());
    buf[20..22].copy_from_slice(&rx.to_le_bytes());
    buf[22..24].copy_from_slice(&ry.to_le_bytes());
    buf
}

/// Regression test for the offsets found by correlating a real recorded
/// trace (2026-07-08): LPAD X/Y at 16/18, RPAD X/Y at 20/22, touch bits
/// in byte 10 (0x08 = LPAD, 0x10 = RPAD). If a future refactor gets an
/// offset wrong, this fails immediately instead of silently producing
/// garbage coordinates on real hardware.
#[test]
fn parse_extracts_known_offsets_correctly() {
    let buf = make_report(1111, -2222, true, 3333, -4444, false);
    let frame = PadFrame::parse(&buf);
    assert_eq!(
        frame,
        PadFrame {
            lx: 1111,
            ly: -2222,
            ltouch: true,
            lclick: false,
            rx: 3333,
            ry: -4444,
            rtouch: false,
            rclick: false,
        }
    );
}

/// Click lives in the same byte as touch (bits 1/2 vs. 3/4) — verify the
/// two don't get confused with each other or with the other pad's bits.
#[test]
fn parse_extracts_click_bits_independently_of_touch_and_other_pad() {
    // Left touching+clicked, right touching but not clicked.
    let buf = make_report_full(1, 2, true, true, 3, 4, true, false);
    let frame = PadFrame::parse(&buf);
    assert!(frame.ltouch && frame.lclick);
    assert!(frame.rtouch && !frame.rclick);

    // Right touching+clicked, left touching but not clicked — the mirror
    // case, to catch a swapped bitmask.
    let buf = make_report_full(1, 2, true, false, 3, 4, true, true);
    let frame = PadFrame::parse(&buf);
    assert!(frame.ltouch && !frame.lclick);
    assert!(frame.rtouch && frame.rclick);

    // Click without touch must be possible in principle (the parser
    // shouldn't gate one bit on the other).
    let buf = make_report_full(0, 0, false, true, 0, 0, false, true);
    let frame = PadFrame::parse(&buf);
    assert!(!frame.ltouch && frame.lclick);
    assert!(!frame.rtouch && frame.rclick);
}

/// Negative i16 values (finger left/above center) must round-trip
/// correctly through the little-endian byte encoding — a sign-handling
/// bug here would look like a random cursor jump on real hardware.
#[test]
fn parse_handles_full_i16_range() {
    let buf = make_report(i16::MIN, i16::MAX, false, i16::MAX, i16::MIN, true);
    let frame = PadFrame::parse(&buf);
    assert_eq!(frame.lx, i16::MIN as i32);
    assert_eq!(frame.ly, i16::MAX as i32);
    assert_eq!(frame.rx, i16::MAX as i32);
    assert_eq!(frame.ry, i16::MIN as i32);
    assert!(frame.rtouch);
    assert!(!frame.ltouch);
}

/// Regression test for the "staircase diagonal" bug: on evdev, X and Y
/// arrived as two separate SYN_REPORT frames, so an intermediate state
/// with only one fresh axis genuinely existed and had to be coalesced in
/// software. A hidraw report has no such intermediate state — X and Y for
/// a pad are always two fields of the *same* read(), so every parsed
/// frame is a complete, consistent (x, y) pair by construction. This test
/// drives a diagonal drag (both axes changing every step, as real
/// hardware does) and asserts every single step's frame already has both
/// coordinates from the same point in time — there is no "wait for the
/// other axis" step to get wrong.
#[test]
fn diagonal_movement_never_produces_a_half_updated_frame() {
    for step in 1..=20i16 {
        let x = step * 100;
        let y = -step * 50;
        let buf = make_report(0, 0, false, x, y, true);
        let frame = PadFrame::parse(&buf);
        // Both axes must reflect *this* step, never a mix of this step's
        // X with a previous step's Y (the old staircase failure mode).
        assert_eq!(frame.rx, x as i32, "x did not update for step {step}");
        assert_eq!(frame.ry, y as i32, "y did not update for step {step}");
    }
}

/// Regression test for the cursor-jump-on-reposition bug: touch state and
/// position used to come from two independently-timed sources (evdev
/// position vs. hidraw touch bit via a `watch` channel), so a lift could
/// be processed after stale position data, or be silently coalesced away
/// entirely under fast lift/retouch cycles. Here, touch and position come
/// from the same parsed frame, and frames are processed strictly in the
/// order they were parsed (mpsc, not watch) — so a lift is always seen
/// with its own frame's data, and a subsequent touch-down elsewhere is
/// always a distinct, later frame, never merged or reordered with the
/// lift.
#[test]
fn lift_and_retouch_elsewhere_are_seen_as_distinct_ordered_frames() {
    let touching_at_a = PadFrame::parse(&make_report(0, 0, false, 1000, 2000, true));
    let lifted = PadFrame::parse(&make_report(0, 0, false, 1000, 2000, false));
    let touching_at_b = PadFrame::parse(&make_report(0, 0, false, 5000, 6000, true));

    assert!(touching_at_a.rtouch);
    assert!(!lifted.rtouch, "lifted frame must report not-touching");
    assert!(touching_at_b.rtouch);
    assert_eq!((touching_at_b.rx, touching_at_b.ry), (5000, 6000));
    // Crucially: the lift frame and the new touch-down frame are two
    // separate, ordered frames — there is no way to observe the new
    // position (5000, 6000) while `rtouch` still reads the old lift
    // state, because both always come from one read() together. Whether
    // this pair of frames constitutes a "change" worth routing is a
    // `trackpad_router::diff_frames` concern, tested there.
}

// --- Haptic feedback wire format ---------------------------------------

#[test]
fn build_haptic_report_matches_hid_steam_layout() {
    let cmd = HapticCommand {
        pad: HapticPad::Right,
        duration_us: 0x1234,
        interval_us: 0x5678,
        count: 3,
        gain_db: -6,
    };
    let buf = build_haptic_report(&cmd);
    assert_eq!(buf[0], 0x00, "report ID must always be 0");
    assert_eq!(buf[1], 0x8F, "command must be ID_TRIGGER_HAPTIC_PULSE");
    assert_eq!(buf[2], 8, "payload length must be 8");
    assert_eq!(buf[3], 0, "HapticPad::Right must be wire value 0 (swapped from hid-steam.c naming — see wire_value)");
    assert_eq!(&buf[4..6], &0x1234u16.to_le_bytes());
    assert_eq!(&buf[6..8], &0x5678u16.to_le_bytes());
    assert_eq!(&buf[8..10], &3u16.to_le_bytes());
    assert_eq!(buf[10] as i8, -6);
    assert!(buf[11..].iter().all(|&b| b == 0), "padding must be zeroed");
    assert_eq!(buf.len(), 65);
}

#[test]
fn build_haptic_report_pad_wire_values_match_steam_firmware_constants() {
    // Wire values are swapped relative to the hid-steam.c constant names
    // (STEAM_PAD_LEFT/RIGHT = 0/1) based on on-hardware testing — see the
    // comment on `HapticPad::wire_value`. "Both" is unaffected.
    let base = HapticCommand { pad: HapticPad::Left, duration_us: 0, interval_us: 0, count: 0, gain_db: 0 };
    assert_eq!(build_haptic_report(&base)[3], 1);
    assert_eq!(build_haptic_report(&HapticCommand { pad: HapticPad::Right, ..base })[3], 0);
    assert_eq!(build_haptic_report(&HapticCommand { pad: HapticPad::Both, ..base })[3], 2);
}

/// The ioctl request number is a fixed, well-known constant on Linux
/// (verified against `<linux/hidraw.h>`'s `HIDIOCSFEATURE(len)` macro
/// expansion for len=65: dir=3, type='H'=0x48, nr=0x06, size=65) — pin it
/// down so a refactor of the bit-shifting can't silently break it.
#[test]
fn hidiocsfeature_65_matches_known_constant() {
    // dir(3) << 30 | type(0x48) << 8 | nr(0x06) | size(65) << 16
    let expected: u32 = (3u32 << 30) | (0x48u32 << 8) | 0x06u32 | (65u32 << 16);
    assert_eq!(hidiocsfeature(65) as u32, expected);
}
