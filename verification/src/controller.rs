//! The controller's raw reports: buttons, axes, and the events that a change of
//! them stands for.

use crate::axes::{RawEvent, EV_ABS, EV_KEY};
use crate::haptics::{from_le_pair, has_bit, signed16};
use crate::text::{contains_text, occurs, text_in};
use vstd::prelude::*;

verus! {

/// Event type of report boundaries.
pub const EV_SYN: u16 = 0;

/// Where a report keeps a button.
#[derive(Debug, Clone, Copy, PartialEq, Eq, Structural)]
pub struct ButtonBit {
    /// The key code of the button.
    pub code: u16,
    pub byte: usize,
    pub mask: u8,
}

/// Where a report keeps an axis.
#[derive(Debug, Clone, Copy, PartialEq, Eq, Structural)]
pub struct AxisWord {
    /// The code of the absolute axis.
    pub code: u16,
    pub offset: usize,
    /// Whether the reported value has the opposite sign.
    pub negate: bool,
}

/// The buttons of a report.
pub open spec fn button_map() -> Seq<ButtonBit> {
    seq![
        // BTN_TR2
        ButtonBit { code: 0x139, byte: 8, mask: 1 },
        // BTN_TL2
        ButtonBit { code: 0x138, byte: 8, mask: 2 },
        // BTN_TR
        ButtonBit { code: 0x137, byte: 8, mask: 4 },
        // BTN_TL
        ButtonBit { code: 0x136, byte: 8, mask: 8 },
        // BTN_WEST
        ButtonBit { code: 0x134, byte: 8, mask: 16 },
        // BTN_EAST
        ButtonBit { code: 0x131, byte: 8, mask: 32 },
        // BTN_NORTH
        ButtonBit { code: 0x133, byte: 8, mask: 64 },
        // BTN_SOUTH
        ButtonBit { code: 0x130, byte: 8, mask: 128 },
        // BTN_DPAD_UP
        ButtonBit { code: 0x220, byte: 9, mask: 1 },
        // BTN_DPAD_RIGHT
        ButtonBit { code: 0x223, byte: 9, mask: 2 },
        // BTN_DPAD_LEFT
        ButtonBit { code: 0x222, byte: 9, mask: 4 },
        // BTN_DPAD_DOWN
        ButtonBit { code: 0x221, byte: 9, mask: 8 },
        // BTN_SELECT
        ButtonBit { code: 0x13a, byte: 9, mask: 16 },
        // BTN_MODE
        ButtonBit { code: 0x13c, byte: 9, mask: 32 },
        // BTN_START
        ButtonBit { code: 0x13b, byte: 9, mask: 64 },
        // BTN_GRIPL2
        ButtonBit { code: 0x226, byte: 9, mask: 128 },
        // BTN_GRIPR2
        ButtonBit { code: 0x227, byte: 10, mask: 1 },
        // BTN_THUMB
        ButtonBit { code: 0x121, byte: 10, mask: 2 },
        // BTN_THUMB2
        ButtonBit { code: 0x122, byte: 10, mask: 4 },
        // BTN_THUMBL
        ButtonBit { code: 0x13d, byte: 10, mask: 64 },
        // BTN_THUMBR
        ButtonBit { code: 0x13e, byte: 11, mask: 4 },
        // BTN_GRIPL
        ButtonBit { code: 0x224, byte: 13, mask: 2 },
        // BTN_GRIPR
        ButtonBit { code: 0x225, byte: 13, mask: 4 },
        // BTN_BASE
        ButtonBit { code: 0x126, byte: 14, mask: 4 },
    ]
}

/// The axes of a report.
pub open spec fn axis_map() -> Seq<AxisWord> {
    seq![
        // ABS_HAT0X
        AxisWord { code: 16, offset: 16, negate: false },
        // ABS_HAT0Y
        AxisWord { code: 17, offset: 18, negate: false },
        // ABS_HAT1X
        AxisWord { code: 18, offset: 20, negate: false },
        // ABS_HAT1Y
        AxisWord { code: 19, offset: 22, negate: false },
        // ABS_HAT2Y
        AxisWord { code: 21, offset: 44, negate: false },
        // ABS_HAT2X
        AxisWord { code: 20, offset: 46, negate: false },
        // ABS_X
        AxisWord { code: 0, offset: 48, negate: false },
        // ABS_Y
        AxisWord { code: 1, offset: 50, negate: true },
        // ABS_RX
        AxisWord { code: 3, offset: 52, negate: false },
        // ABS_RY
        AxisWord { code: 4, offset: 54, negate: true },
    ]
}

fn buttons() -> (r: Vec<ButtonBit>)
    ensures
        r@ == button_map(),
{
    let mut r: Vec<ButtonBit> = Vec::new();
    r.push(ButtonBit { code: 0x139, byte: 8, mask: 1 });
    r.push(ButtonBit { code: 0x138, byte: 8, mask: 2 });
    r.push(ButtonBit { code: 0x137, byte: 8, mask: 4 });
    r.push(ButtonBit { code: 0x136, byte: 8, mask: 8 });
    r.push(ButtonBit { code: 0x134, byte: 8, mask: 16 });
    r.push(ButtonBit { code: 0x131, byte: 8, mask: 32 });
    r.push(ButtonBit { code: 0x133, byte: 8, mask: 64 });
    r.push(ButtonBit { code: 0x130, byte: 8, mask: 128 });
    r.push(ButtonBit { code: 0x220, byte: 9, mask: 1 });
    r.push(ButtonBit { code: 0x223, byte: 9, mask: 2 });
    r.push(ButtonBit { code: 0x222, byte: 9, mask: 4 });
    r.push(ButtonBit { code: 0x221, byte: 9, mask: 8 });
    r.push(ButtonBit { code: 0x13a, byte: 9, mask: 16 });
    r.push(ButtonBit { code: 0x13c, byte: 9, mask: 32 });
    r.push(ButtonBit { code: 0x13b, byte: 9, mask: 64 });
    r.push(ButtonBit { code: 0x226, byte: 9, mask: 128 });
    r.push(ButtonBit { code: 0x227, byte: 10, mask: 1 });
    r.push(ButtonBit { code: 0x121, byte: 10, mask: 2 });
    r.push(ButtonBit { code: 0x122, byte: 10, mask: 4 });
    r.push(ButtonBit { code: 0x13d, byte: 10, mask: 64 });
    r.push(ButtonBit { code: 0x13e, byte: 11, mask: 4 });
    r.push(ButtonBit { code: 0x224, byte: 13, mask: 2 });
    r.push(ButtonBit { code: 0x225, byte: 13, mask: 4 });
    r.push(ButtonBit { code: 0x126, byte: 14, mask: 4 });
    assert(r@ =~= button_map());
    r
}

fn axes() -> (r: Vec<AxisWord>)
    ensures
        r@ == axis_map(),
{
    let mut r: Vec<AxisWord> = Vec::new();
    r.push(AxisWord { code: 16, offset: 16, negate: false });
    r.push(AxisWord { code: 17, offset: 18, negate: false });
    r.push(AxisWord { code: 18, offset: 20, negate: false });
    r.push(AxisWord { code: 19, offset: 22, negate: false });
    r.push(AxisWord { code: 21, offset: 44, negate: false });
    r.push(AxisWord { code: 20, offset: 46, negate: false });
    r.push(AxisWord { code: 0, offset: 48, negate: false });
    r.push(AxisWord { code: 1, offset: 50, negate: true });
    r.push(AxisWord { code: 3, offset: 52, negate: false });
    r.push(AxisWord { code: 4, offset: 54, negate: true });
    assert(r@ =~= axis_map());
    r
}

/// The events of the buttons of `map` that changed from `prev` to `buf`.
pub open spec fn button_events(buf: Seq<u8>, prev: Seq<u8>, map: Seq<ButtonBit>) -> Seq<RawEvent>
    decreases map.len(),
{
    if map.len() == 0 {
        Seq::empty()
    } else {
        let before = button_events(buf, prev, map.drop_last());
        let b = map.last();
        let was = has_bit(prev[b.byte as int], b.mask);
        let now = has_bit(buf[b.byte as int], b.mask);
        if was == now {
            before
        } else {
            before.push(
                RawEvent {
                    kind: EV_KEY,
                    code: b.code,
                    value: if now {
                        1
                    } else {
                        0
                    },
                },
            )
        }
    }
}

/// The value of an axis in a report.
pub open spec fn axis_word(buf: Seq<u8>, a: AxisWord) -> int {
    signed16(buf[a.offset as int], buf[a.offset + 1])
}

/// The events of the axes of `map` that changed from `prev` to `buf`.
pub open spec fn axis_events(buf: Seq<u8>, prev: Seq<u8>, map: Seq<AxisWord>) -> Seq<RawEvent>
    decreases map.len(),
{
    if map.len() == 0 {
        Seq::empty()
    } else {
        let before = axis_events(buf, prev, map.drop_last());
        let a = map.last();
        let was = axis_word(prev, a);
        let now = axis_word(buf, a);
        if was == now {
            before
        } else {
            before.push(
                RawEvent {
                    kind: EV_ABS,
                    code: a.code,
                    value: (if a.negate {
                        -now
                    } else {
                        now
                    }) as i32,
                },
            )
        }
    }
}

/// The events that a device would report for the change from `prev` to `buf`:
/// buttons, axes, and a boundary where there is anything to report.
pub open spec fn input_events(buf: Seq<u8>, prev: Seq<u8>) -> Seq<RawEvent> {
    let changes = button_events(buf, prev, button_map()) + axis_events(buf, prev, axis_map());
    if changes.len() == 0 {
        changes
    } else {
        changes.push(RawEvent { kind: EV_SYN, code: 0, value: 0 })
    }
}

/// The events that a device would report for the change from `prev` to `buf`.
pub fn synthesise_input_events(buf: &[u8; 64], prev: &[u8; 64]) -> (r: Vec<RawEvent>)
    ensures
        r@ == input_events(buf@, prev@),
{
    let mut r: Vec<RawEvent> = Vec::new();
    let map: Vec<ButtonBit> = buttons();
    let mut i: usize = 0;
    proof {
        assert(forall|j: int|
            0 <= j < button_map().len() ==> (#[trigger] button_map()[j]).byte < 64);
        assert(map@.take(0) =~= Seq::<ButtonBit>::empty());
    }
    while i < map.len()
        invariant
            i <= map@.len(),
            map@ == button_map(),
            forall|j: int| 0 <= j < map@.len() ==> (#[trigger] map@[j]).byte < 64,
            r@ == button_events(buf@, prev@, map@.take(i as int)),
        decreases map@.len() - i,
    {
        let b: ButtonBit = map[i];
        let was: bool = prev[b.byte] & b.mask != 0;
        let now: bool = buf[b.byte] & b.mask != 0;
        if was != now {
            r.push(
                RawEvent {
                    kind: EV_KEY,
                    code: b.code,
                    value: if now {
                        1
                    } else {
                        0
                    },
                },
            );
        }
        i = i + 1;
        proof {
            assert(map@.take(i as int).drop_last() =~= map@.take(i - 1));
            assert(map@.take(i as int).last() == b);
        }
    }
    assert(map@.take(i as int) =~= map@);
    let ghost presses = r@;
    let words: Vec<AxisWord> = axes();
    let mut k: usize = 0;
    proof {
        assert(forall|j: int|
            0 <= j < axis_map().len() ==> (#[trigger] axis_map()[j]).offset < 63);
        assert(words@.take(0) =~= Seq::<AxisWord>::empty());
        assert(presses + Seq::<RawEvent>::empty() =~= presses);
    }
    while k < words.len()
        invariant
            k <= words@.len(),
            words@ == axis_map(),
            forall|j: int| 0 <= j < words@.len() ==> (#[trigger] words@[j]).offset < 63,
            r@ == presses + axis_events(buf@, prev@, words@.take(k as int)),
        decreases words@.len() - k,
    {
        let a: AxisWord = words[k];
        let was: i32 = from_le_pair(prev[a.offset], prev[a.offset + 1]);
        let now: i32 = from_le_pair(buf[a.offset], buf[a.offset + 1]);
        let ghost before = axis_events(buf@, prev@, words@.take(k as int));
        if was != now {
            let e = RawEvent {
                kind: EV_ABS,
                code: a.code,
                value: if a.negate {
                    -now
                } else {
                    now
                },
            };
            r.push(e);
            assert((presses + before).push(e) =~= presses + before.push(e));
        }
        k = k + 1;
        proof {
            assert(words@.take(k as int).drop_last() =~= words@.take(k - 1));
            assert(words@.take(k as int).last() == a);
        }
    }
    assert(words@.take(k as int) =~= words@);
    if r.len() > 0 {
        r.push(RawEvent { kind: EV_SYN, code: 0, value: 0 });
    }
    r
}

/// A report that repeats the last one stands for nothing.
pub proof fn law_unchanged_report_is_silent(buf: Seq<u8>)
    ensures
        input_events(buf, buf) == Seq::<RawEvent>::empty(),
{
    lemma_no_button_events(buf, button_map());
    lemma_no_axis_events(buf, axis_map());
    assert(input_events(buf, buf) =~= Seq::<RawEvent>::empty());
}

proof fn lemma_no_button_events(buf: Seq<u8>, map: Seq<ButtonBit>)
    ensures
        button_events(buf, buf, map).len() == 0,
    decreases map.len(),
{
    if map.len() > 0 {
        lemma_no_button_events(buf, map.drop_last());
    }
}

proof fn lemma_no_axis_events(buf: Seq<u8>, map: Seq<AxisWord>)
    ensures
        axis_events(buf, buf, map).len() == 0,
    decreases map.len(),
{
    if map.len() > 0 {
        lemma_no_axis_events(buf, map.drop_last());
    }
}

/// Everything that is reported ends with a boundary, and there is only one.
pub proof fn law_reports_end_with_a_boundary(buf: Seq<u8>, prev: Seq<u8>)
    ensures
        ({
            let events = input_events(buf, prev);
            &&& events.len() != 1
            &&& forall|i: int|
                0 <= i < events.len() ==> ((#[trigger] events[i]).kind == EV_SYN <==> i
                    == events.len() - 1)
        }),
{
    lemma_button_kinds(buf, prev, button_map());
    lemma_axis_kinds(buf, prev, axis_map());
}

proof fn lemma_button_kinds(buf: Seq<u8>, prev: Seq<u8>, map: Seq<ButtonBit>)
    ensures
        forall|i: int|
            0 <= i < button_events(buf, prev, map).len() ==> (#[trigger] button_events(
                buf,
                prev,
                map,
            )[i]).kind == EV_KEY,
    decreases map.len(),
{
    if map.len() > 0 {
        let before = button_events(buf, prev, map.drop_last());
        let all = button_events(buf, prev, map);
        lemma_button_kinds(buf, prev, map.drop_last());
        assert forall|i: int| 0 <= i < all.len() implies (#[trigger] all[i]).kind == EV_KEY by {
            if i < before.len() {
                assert(all[i] == before[i]);
            }
        }
    }
}

proof fn lemma_axis_kinds(buf: Seq<u8>, prev: Seq<u8>, map: Seq<AxisWord>)
    ensures
        forall|i: int|
            0 <= i < axis_events(buf, prev, map).len() ==> (#[trigger] axis_events(
                buf,
                prev,
                map,
            )[i]).kind == EV_ABS,
    decreases map.len(),
{
    if map.len() > 0 {
        let before = axis_events(buf, prev, map.drop_last());
        let all = axis_events(buf, prev, map);
        lemma_axis_kinds(buf, prev, map.drop_last());
        assert forall|i: int| 0 <= i < all.len() implies (#[trigger] all[i]).kind == EV_ABS by {
            if i < before.len() {
                assert(all[i] == before[i]);
            }
        }
    }
}

proof fn lemma_axis_codes(buf: Seq<u8>, prev: Seq<u8>, map: Seq<AxisWord>)
    requires
        forall|i: int, j: int|
            #![trigger map[i], map[j]]
            0 <= i < j < map.len() ==> map[i].code != map[j].code,
    ensures
        ({
            let events = axis_events(buf, prev, map);
            &&& forall|i: int|
                #![trigger events[i]]
                0 <= i < events.len() ==> exists|j: int|
                    0 <= j < map.len() && (#[trigger] map[j]).code == events[i].code
            &&& forall|i: int, j: int|
                #![trigger events[i], events[j]]
                0 <= i < j < events.len() ==> events[i].code != events[j].code
        }),
    decreases map.len(),
{
    if map.len() > 0 {
        let init = map.drop_last();
        let a = map.last();
        let before = axis_events(buf, prev, init);
        let events = axis_events(buf, prev, map);
        assert forall|i: int, j: int|
            #![trigger init[i], init[j]]
            0 <= i < j < init.len() implies init[i].code != init[j].code by {
            assert(map[i] == init[i] && map[j] == init[j]);
        }
        lemma_axis_codes(buf, prev, init);
        assert(map[map.len() - 1] == a);
        assert forall|i: int| #![trigger events[i]] 0 <= i < events.len() implies exists|j: int|
            0 <= j < map.len() && (#[trigger] map[j]).code == events[i].code by {
            if i < before.len() {
                assert(events[i] == before[i]);
                let j = choose|j: int|
                    0 <= j < init.len() && (#[trigger] init[j]).code == before[i].code;
                assert(map[j] == init[j]);
            } else {
                assert(map[map.len() - 1].code == events[i].code);
            }
        }
        assert forall|i: int, j: int|
            #![trigger events[i], events[j]]
            0 <= i < j < events.len() implies events[i].code != events[j].code by {
            assert(events[i] == before[i]);
            if j < before.len() {
                assert(events[j] == before[j]);
            } else {
                let k = choose|k: int|
                    0 <= k < init.len() && (#[trigger] init[k]).code == before[i].code;
                assert(map[k] == init[k]);
            }
        }
    }
}

proof fn lemma_axis_event(buf: Seq<u8>, prev: Seq<u8>, map: Seq<AxisWord>, j: int)
    requires
        forall|i: int, j: int|
            #![trigger map[i], map[j]]
            0 <= i < j < map.len() ==> map[i].code != map[j].code,
        0 <= j < map.len(),
    ensures
        ({
            let events = axis_events(buf, prev, map);
            let now = axis_word(buf, map[j]);
            &&& now != axis_word(prev, map[j]) <==> exists|i: int|
                0 <= i < events.len() && (#[trigger] events[i]).code == map[j].code
            &&& forall|i: int|
                0 <= i < events.len() && (#[trigger] events[i]).code == map[j].code
                    ==> events[i].value == (if map[j].negate {
                    -now
                } else {
                    now
                })
        }),
    decreases map.len(),
{
    let init = map.drop_last();
    let before = axis_events(buf, prev, init);
    let events = axis_events(buf, prev, map);
    assert forall|i: int, j: int|
        #![trigger init[i], init[j]]
        0 <= i < j < init.len() implies init[i].code != init[j].code by {
        assert(map[i] == init[i] && map[j] == init[j]);
    }
    let now = axis_word(buf, map[j]);
    let changed = now != axis_word(prev, map[j]);
    lemma_axis_codes(buf, prev, init);
    if j < init.len() {
        lemma_axis_event(buf, prev, init, j);
        assert(init[j] == map[j]);
        assert(map[map.len() - 1].code != map[j].code);
        if changed {
            let i = choose|i: int|
                0 <= i < before.len() && (#[trigger] before[i]).code == map[j].code;
            assert(events[i] == before[i]);
        }
        assert forall|i: int|
            0 <= i < events.len() && (#[trigger] events[i]).code == map[j].code implies i
            < before.len() && before[i] == events[i] by {}
    } else {
        assert forall|i: int| 0 <= i < before.len() implies (#[trigger] before[i]).code
            != map[j].code by {
            let k = choose|k: int|
                0 <= k < init.len() && (#[trigger] init[k]).code == before[i].code;
            assert(map[k] == init[k]);
        }
        if changed {
            assert(events[before.len() as int].code == map[j].code);
        }
        assert forall|i: int|
            0 <= i < events.len() && (#[trigger] events[i]).code == map[j].code implies changed && i
            == before.len() by {
            if i < before.len() {
                assert(events[i] == before[i]);
            }
        }
    }
}

proof fn lemma_button_events(buf: Seq<u8>, prev: Seq<u8>, map: Seq<ButtonBit>)
    requires
        forall|i: int, j: int|
            #![trigger map[i], map[j]]
            0 <= i < j < map.len() ==> map[i].code != map[j].code,
    ensures
        ({
            let events = button_events(buf, prev, map);
            &&& forall|i: int|
                0 <= i < events.len() ==> exists|j: int|
                    0 <= j < map.len() && (#[trigger] map[j]).code == (#[trigger] events[i]).code
                        && has_bit(prev[map[j].byte as int], map[j].mask) != has_bit(
                        buf[map[j].byte as int],
                        map[j].mask,
                    ) && events[i].value == (if has_bit(buf[map[j].byte as int], map[j].mask) {
                        1int
                    } else {
                        0int
                    })
            &&& forall|j: int|
                0 <= j < map.len() && has_bit(
                    prev[(#[trigger] map[j]).byte as int],
                    map[j].mask,
                ) != has_bit(buf[map[j].byte as int], map[j].mask) ==> exists|i: int|
                    0 <= i < events.len() && (#[trigger] events[i]).code == map[j].code
            &&& forall|i: int, j: int|
                #![trigger events[i], events[j]]
                0 <= i < j < events.len() ==> events[i].code != events[j].code
        }),
    decreases map.len(),
{
    if map.len() > 0 {
        let init = map.drop_last();
        let a = map.last();
        let before = button_events(buf, prev, init);
        let events = button_events(buf, prev, map);
        assert forall|i: int, j: int|
            #![trigger init[i], init[j]]
            0 <= i < j < init.len() implies init[i].code != init[j].code by {
            assert(map[i] == init[i] && map[j] == init[j]);
        }
        lemma_button_events(buf, prev, init);
        assert(map[map.len() - 1] == a);
        assert forall|i: int| 0 <= i < events.len() implies exists|j: int|
            0 <= j < map.len() && (#[trigger] map[j]).code == (#[trigger] events[i]).code
                && has_bit(prev[map[j].byte as int], map[j].mask) != has_bit(
                buf[map[j].byte as int],
                map[j].mask,
            ) && events[i].value == (if has_bit(buf[map[j].byte as int], map[j].mask) {
                1int
            } else {
                0int
            }) by {
            if i < before.len() {
                assert(events[i] == before[i]);
                let j = choose|j: int|
                    0 <= j < init.len() && (#[trigger] init[j]).code == before[i].code && has_bit(
                        prev[init[j].byte as int],
                        init[j].mask,
                    ) != has_bit(buf[init[j].byte as int], init[j].mask) && before[i].value == (
                    if has_bit(buf[init[j].byte as int], init[j].mask) {
                        1int
                    } else {
                        0int
                    });
                assert(map[j] == init[j]);
            } else {
                assert(map[map.len() - 1].code == events[i].code);
            }
        }
        assert forall|j: int|
            0 <= j < map.len() && has_bit(
                prev[(#[trigger] map[j]).byte as int],
                map[j].mask,
            ) != has_bit(buf[map[j].byte as int], map[j].mask) implies exists|i: int|
            0 <= i < events.len() && (#[trigger] events[i]).code == map[j].code by {
            if j < init.len() {
                assert(init[j] == map[j]);
                let i = choose|i: int|
                    0 <= i < before.len() && (#[trigger] before[i]).code == init[j].code;
                assert(events[i] == before[i]);
            } else {
                assert(events[before.len() as int].code == a.code);
            }
        }
        assert forall|i: int, j: int|
            #![trigger events[i], events[j]]
            0 <= i < j < events.len() implies events[i].code != events[j].code by {
            assert(events[i] == before[i]);
            if j < before.len() {
                assert(events[j] == before[j]);
            } else {
                let k = choose|k: int|
                    0 <= k < init.len() && (#[trigger] init[k]).code == before[i].code;
                assert(map[k] == init[k]);
            }
        }
    }
}

/// An axis is reported if and only if its two bytes, taken as a signed number
/// with the low byte first, have changed: once, with the new number, and with
/// the opposite sign for the vertical axes of the two sticks. Applied to the
/// old report, the events give the axes of the new one; a stick that springs
/// back to its centre is reported there.
pub proof fn law_changed_axes_are_reported(buf: Seq<u8>, prev: Seq<u8>, code: u16)
    requires
        buf.len() == 64,
        prev.len() == 64,
    ensures
        ({
            let events = input_events(buf, prev);
            // Where each axis lies, by its code.
            let at: int = if code == 16 {
                16
            } else if code == 17 {
                18
            } else if code == 18 {
                20
            } else if code == 19 {
                22
            } else if code == 21 {
                44
            } else if code == 20 {
                46
            } else if code == 0 {
                48
            } else if code == 1 {
                50
            } else if code == 3 {
                52
            } else if code == 4 {
                54
            } else {
                -1
            };
            let new: int = buf[at] + 256 * buf[at + 1] - (if buf[at + 1] >= 128 {
                65536int
            } else {
                0int
            });
            let old_value: int = prev[at] + 256 * prev[at + 1] - (if prev[at + 1] >= 128 {
                65536int
            } else {
                0int
            });
            &&& (exists|i: int|
                0 <= i < events.len() && (#[trigger] events[i]).kind == 3 && events[i].code
                    == code) <==> at >= 0 && new != old_value
            &&& forall|i: int|
                0 <= i < events.len() && (#[trigger] events[i]).kind == 3 && events[i].code == code
                    ==> events[i].value == (if code == 1 || code == 4 {
                    -new
                } else {
                    new
                })
            &&& forall|i: int, j: int|
                #![trigger events[i], events[j]]
                0 <= i < j < events.len() && events[i].kind == 3 && events[j].kind == 3
                    ==> events[i].code != events[j].code
        }),
{
    let map = axis_map();
    let words = axis_events(buf, prev, map);
    let presses = button_events(buf, prev, button_map());
    let events = input_events(buf, prev);
    assert(map.len() == 10);
    lemma_axis_codes(buf, prev, map);
    lemma_axis_kinds(buf, prev, map);
    lemma_button_kinds(buf, prev, button_map());
    let n = presses.len() as int;
    assert forall|i: int| 0 <= i < words.len() implies #[trigger] words[i] == events[n + i] by {}
    assert forall|i: int| 0 <= i < events.len() && (#[trigger] events[i]).kind == 3 implies n <= i
        < n + words.len() && events[i] == words[i - n] by {
        if i < n {
            assert(events[i] == presses[i]);
        }
    }
    let j = lemma_axis_place(code);
    if j >= 0 {
        lemma_axis_event(buf, prev, map, j);
        if axis_word(prev, map[j]) != axis_word(buf, map[j]) {
            let i = choose|i: int| 0 <= i < words.len() && (#[trigger] words[i]).code == code;
            assert(events[n + i].kind == 3 && events[n + i].code == code);
        }
    }
    assert forall|i: int, j: int|
        #![trigger events[i], events[j]]
        0 <= i < j < events.len() && events[i].kind == 3 && events[j].kind == 3 implies events[i].code
        != events[j].code by {
        assert(words[i - n].code != words[j - n].code);
    }
}

proof fn lemma_axis_place(code: u16) -> (j: int)
    ensures
        -1 <= j < 10,
        j >= 0 ==> axis_map()[j].code == code,
        j < 0 ==> forall|k: int| 0 <= k < axis_map().len() ==> (#[trigger] axis_map()[k]).code
            != code,
        j == (if code == 16 {
            0int
        } else if code == 17 {
            1
        } else if code == 18 {
            2
        } else if code == 19 {
            3
        } else if code == 21 {
            4
        } else if code == 20 {
            5
        } else if code == 0 {
            6
        } else if code == 1 {
            7
        } else if code == 3 {
            8
        } else if code == 4 {
            9
        } else {
            -1
        }),
{
    if code == 16 {
        0
    } else if code == 17 {
        1
    } else if code == 18 {
        2
    } else if code == 19 {
        3
    } else if code == 21 {
        4
    } else if code == 20 {
        5
    } else if code == 0 {
        6
    } else if code == 1 {
        7
    } else if code == 3 {
        8
    } else if code == 4 {
        9
    } else {
        -1
    }
}

/// A button is reported if and only if its bit has changed: once, as pressed
/// where the bit is set now and as released where it is not. Nothing else is
/// reported as a button.
pub proof fn law_changed_buttons_are_reported(buf: Seq<u8>, prev: Seq<u8>, code: u16)
    requires
        buf.len() == 64,
        prev.len() == 64,
    ensures
        ({
            let events = input_events(buf, prev);
            // Where each button lies, by its code: the byte and the bit.
            let (at, bit): (int, u8) = if code == 0x139 {
                (8, 0x01)
            } else if code == 0x138 {
                (8, 0x02)
            } else if code == 0x137 {
                (8, 0x04)
            } else if code == 0x136 {
                (8, 0x08)
            } else if code == 0x134 {
                (8, 0x10)
            } else if code == 0x131 {
                (8, 0x20)
            } else if code == 0x133 {
                (8, 0x40)
            } else if code == 0x130 {
                (8, 0x80)
            } else if code == 0x220 {
                (9, 0x01)
            } else if code == 0x223 {
                (9, 0x02)
            } else if code == 0x222 {
                (9, 0x04)
            } else if code == 0x221 {
                (9, 0x08)
            } else if code == 0x13a {
                (9, 0x10)
            } else if code == 0x13c {
                (9, 0x20)
            } else if code == 0x13b {
                (9, 0x40)
            } else if code == 0x226 {
                (9, 0x80)
            } else if code == 0x227 {
                (10, 0x01)
            } else if code == 0x121 {
                (10, 0x02)
            } else if code == 0x122 {
                (10, 0x04)
            } else if code == 0x13d {
                (10, 0x40)
            } else if code == 0x13e {
                (11, 0x04)
            } else if code == 0x224 {
                (13, 0x02)
            } else if code == 0x225 {
                (13, 0x04)
            } else if code == 0x126 {
                (14, 0x04)
            } else {
                (-1, 0x00)
            };
            let now = buf[at] & bit != 0;
            let before = prev[at] & bit != 0;
            &&& (exists|i: int|
                0 <= i < events.len() && (#[trigger] events[i]).kind == 1 && events[i].code
                    == code) <==> at >= 0 && now != before
            &&& forall|i: int|
                0 <= i < events.len() && (#[trigger] events[i]).kind == 1 && events[i].code == code
                    ==> events[i].value == (if now {
                    1int
                } else {
                    0int
                })
            &&& forall|i: int, j: int|
                #![trigger events[i], events[j]]
                0 <= i < j < events.len() && events[i].kind == 1 && events[j].kind == 1
                    ==> events[i].code != events[j].code
        }),
{
    let map = button_map();
    let words = axis_events(buf, prev, axis_map());
    let presses = button_events(buf, prev, map);
    let events = input_events(buf, prev);
    assert(map.len() == 24);
    lemma_button_codes();
    lemma_button_events(buf, prev, map);
    lemma_axis_kinds(buf, prev, axis_map());
    lemma_button_kinds(buf, prev, map);
    let n = presses.len() as int;
    assert forall|i: int| 0 <= i < n implies #[trigger] events[i] == presses[i] by {}
    assert forall|i: int| 0 <= i < events.len() && (#[trigger] events[i]).kind == 1 implies i
        < n by {
        if n <= i < n + words.len() {
            assert(events[i] == words[i - n]);
        }
    }
    assert(map[0].code == 0x139 && map[1].code == 0x138 && map[2].code == 0x137 && map[3].code
        == 0x136 && map[4].code == 0x134 && map[5].code == 0x131 && map[6].code == 0x133
        && map[7].code == 0x130);
    assert(map[8].code == 0x220 && map[9].code == 0x223 && map[10].code == 0x222 && map[11].code
        == 0x221 && map[12].code == 0x13a && map[13].code == 0x13c && map[14].code == 0x13b
        && map[15].code == 0x226);
    assert(map[16].code == 0x227 && map[17].code == 0x121 && map[18].code == 0x122 && map[19].code
        == 0x13d && map[20].code == 0x13e && map[21].code == 0x224 && map[22].code == 0x225
        && map[23].code == 0x126);
    if exists|j: int| 0 <= j < map.len() && (#[trigger] map[j]).code == code {
        let j = choose|j: int| 0 <= j < map.len() && (#[trigger] map[j]).code == code;
        if has_bit(prev[map[j].byte as int], map[j].mask) != has_bit(
            buf[map[j].byte as int],
            map[j].mask,
        ) {
            let i = choose|i: int| 0 <= i < presses.len() && (#[trigger] presses[i]).code == code;
            assert(events[i] == presses[i]);
        }
    }
}

proof fn lemma_button_codes()
    ensures
        forall|i: int, j: int|
            #![trigger button_map()[i], button_map()[j]]
            0 <= i < j < button_map().len() ==> button_map()[i].code != button_map()[j].code,
{
}

/// Buttons are reported before axes.
pub proof fn law_buttons_are_reported_first(buf: Seq<u8>, prev: Seq<u8>, i: int, j: int)
    requires
        0 <= i < input_events(buf, prev).len(),
        0 <= j < input_events(buf, prev).len(),
        input_events(buf, prev)[i].kind == 1,
        input_events(buf, prev)[j].kind == 3,
    ensures
        i < j,
{
    lemma_axis_kinds(buf, prev, axis_map());
    lemma_button_kinds(buf, prev, button_map());
    let n = button_events(buf, prev, button_map()).len();
    if j < n {
        assert(input_events(buf, prev)[j] == button_events(buf, prev, button_map())[j]);
    }
    if n <= i < n + axis_events(buf, prev, axis_map()).len() {
        assert(input_events(buf, prev)[i] == axis_events(buf, prev, axis_map())[i - n]);
    }
}

// ── Device names ─────────────────────────────────────────────────────────────

/// Whether a device name is one of the controller's.
pub open spec fn is_known_name(name: Seq<char>) -> bool {
    occurs(name, "Steam Deck"@) || occurs(name, "Valve Software Steam Controller"@)
}

/// Whether a device name is one of the controller's.
pub fn is_known_device_name(name: &str) -> (r: bool)
    ensures
        r == is_known_name(name@),
{
    contains_text(name, "Steam Deck") || contains_text(name, "Valve Software Steam Controller")
}

/// The name that configurations use for the controller, whatever name the
/// kernel gives it.
pub fn canonical_device_name(evdev_name: &str) -> (r: Option<&'static str>)
    ensures
        match r {
            Some(n) => is_known_name(evdev_name@) && n@ == "Steam Deck"@,
            None => !is_known_name(evdev_name@),
        },
{
    if is_known_device_name(evdev_name) {
        Some("Steam Deck")
    } else {
        None
    }
}

/// Click pressure thresholds of the two pads.
#[derive(Debug, Clone, Copy, PartialEq, Eq, Structural)]
pub struct ClickPressureConfig {
    pub left: u16,
    pub right: u16,
}

/// The thresholds that are sent: only where both pads have one.
pub fn click_pressure_of(left: Option<u16>, right: Option<u16>) -> (r: Option<
    ClickPressureConfig,
>)
    ensures
        r == (match (left, right) {
            (Some(left), Some(right)) => Some(ClickPressureConfig { left, right }),
            _ => None,
        }),
{
    match (left, right) {
        (Some(left), Some(right)) => Some(ClickPressureConfig { left, right }),
        _ => None,
    }
}

/// The controller, by the paths of its device files.
#[derive(Debug, Clone, PartialEq, Eq)]
pub struct SteamDeckController {
    pub evdev_path: String,
    /// The raw interface; none on other hardware.
    pub hidraw_path: Option<String>,
}

/// A raw interface that was found, and what is known of it.
#[derive(Debug, Clone, PartialEq, Eq)]
pub struct HidrawCandidate {
    /// The name of the device file.
    pub name: String,
    /// The interface one level up, where it can be told.
    pub interface: Option<String>,
    /// The device two levels up, where it can be told.
    pub usb_device: Option<String>,
    /// Whether it backs an emulated keyboard or mouse.
    pub has_input: bool,
}

/// Whether a raw interface is the controller's: of the same device, and not the
/// back of an emulated keyboard or mouse.
pub open spec fn is_sibling(c: HidrawCandidate, usb_device: Seq<char>) -> bool {
    c.usb_device matches Some(d) && d@ == usb_device && !c.has_input
}

/// The path of a device file.
pub open spec fn device_path(name: Seq<char>) -> Seq<char> {
    "/dev/"@ + name
}

/// The first, by name, of the raw interfaces that are the controller's.
pub fn find_controller_hidraw_for_evdev(candidates: &Vec<HidrawCandidate>, usb_device: &str) -> (r: Option<String>)
    ensures
        match r {
            Some(p) => exists|i: int|
                {
                    &&& 0 <= i < candidates@.len()
                    &&& is_sibling(candidates@[i], usb_device@)
                    &&& p@ == device_path((#[trigger] candidates@[i]).name@)
                    &&& forall|j: int|
                        0 <= j < candidates@.len() && is_sibling(candidates@[j], usb_device@)
                            ==> !crate::text::text_before(
                            (#[trigger] candidates@[j]).name@,
                            candidates@[i].name@,
                        )
                },
            None => forall|j: int|
                0 <= j < candidates@.len() ==> !is_sibling(#[trigger] candidates@[j], usb_device@),
        },
{
    let mut best: Option<usize> = None;
    let mut i: usize = 0;
    while i < candidates.len()
        invariant
            i <= candidates@.len(),
            match best {
                Some(b) => {
                    &&& b < i
                    &&& is_sibling(candidates@[b as int], usb_device@)
                    &&& forall|j: int|
                        0 <= j < i && is_sibling(candidates@[j], usb_device@)
                            ==> !crate::text::text_before(
                            (#[trigger] candidates@[j]).name@,
                            candidates@[b as int].name@,
                        )
                },
                None => forall|j: int|
                    0 <= j < i ==> !is_sibling(#[trigger] candidates@[j], usb_device@),
            },
        decreases candidates@.len() - i,
    {
        let same: bool = match &candidates[i].usb_device {
            Some(d) => crate::text::same_text(d.as_str(), usb_device),
            None => false,
        };
        if same && !candidates[i].has_input {
            match best {
                Some(b) => {
                    if crate::text::text_is_before(
                        candidates[i].name.as_str(),
                        candidates[b].name.as_str(),
                    ) {
                        proof {
                            <String as crate::order::Ordered>::before_irreflexive(
                                candidates@[i as int].name@,
                            );
                            assert forall|j: int|
                                0 <= j < i + 1 && is_sibling(
                                    candidates@[j],
                                    usb_device@,
                                ) implies !crate::text::text_before(
                                (#[trigger] candidates@[j]).name@,
                                candidates@[i as int].name@,
                            ) by {
                                if crate::text::text_before(
                                    candidates@[j].name@,
                                    candidates@[i as int].name@,
                                ) {
                                    <String as crate::order::Ordered>::before_transitive(
                                        candidates@[j].name@,
                                        candidates@[i as int].name@,
                                        candidates@[b as int].name@,
                                    );
                                }
                            }
                        }
                        best = Some(i);
                    }
                },
                None => {
                    proof {
                        <String as crate::order::Ordered>::before_irreflexive(
                            candidates@[i as int].name@,
                        );
                    }
                    best = Some(i);
                },
            }
        }
        i = i + 1;
    }
    match best {
        Some(b) => Some(crate::text::joined("/dev/", candidates[b].name.as_str())),
        None => None,
    }
}

/// The first raw interface of the same interface of a device, in the order in
/// which they were found.
pub open spec fn first_of_interface(
    candidates: Seq<HidrawCandidate>,
    interface: Seq<char>,
) -> Option<Seq<char>>
    decreases candidates.len(),
{
    if candidates.len() == 0 {
        None
    } else if candidates[0].interface matches Some(i) && i@ == interface {
        Some(device_path(candidates[0].name@))
    } else {
        first_of_interface(candidates.drop_first(), interface)
    }
}

/// The first raw interface of the same interface of a device.
pub fn find_hidraw_for_evdev(candidates: &Vec<HidrawCandidate>, interface: &str) -> (r: Option<
    String,
>)
    ensures
        text_in(r) == first_of_interface(candidates@, interface@),
{
    let ghost all = candidates@;
    let mut i: usize = 0;
    assert(all.skip(0) =~= all);
    while i < candidates.len()
        invariant
            i <= candidates@.len(),
            all == candidates@,
            first_of_interface(all, interface@) == first_of_interface(
                all.skip(i as int),
                interface@,
            ),
        decreases candidates@.len() - i,
    {
        proof {
            assert(all.skip(i as int)[0] == all[i as int]);
            assert(all.skip(i as int).drop_first() =~= all.skip(i + 1));
        }
        let same: bool = match &candidates[i].interface {
            Some(d) => crate::text::same_text(d.as_str(), interface),
            None => false,
        };
        if same {
            return Some(crate::text::joined("/dev/", candidates[i].name.as_str()));
        }
        i = i + 1;
    }
    None
}

impl SteamDeckController {
    /// The index of the first device whose name is one of the controller's.
    pub fn find(names: &Vec<String>) -> (r: Option<usize>)
        ensures
            match r {
                Some(i) => {
                    &&& i < names@.len()
                    &&& is_known_name(names@[i as int]@)
                    &&& forall|j: int| 0 <= j < i ==> !is_known_name((#[trigger] names@[j])@)
                },
                None => forall|j: int|
                    0 <= j < names@.len() ==> !is_known_name((#[trigger] names@[j])@),
            },
    {
        let mut i: usize = 0;
        while i < names.len()
            invariant
                i <= names@.len(),
                forall|j: int| 0 <= j < i ==> !is_known_name((#[trigger] names@[j])@),
            decreases names@.len() - i,
        {
            if is_known_device_name(names[i].as_str()) {
                return Some(i);
            }
            i = i + 1;
        }
        None
    }

    /// The controller at `evdev_path`, given the raw interfaces of the machine
    /// and the device that the path belongs to, where that is known.
    pub fn from_evdev(
        evdev_path: &str,
        usb_device: &Option<String>,
        candidates: &Vec<HidrawCandidate>,
    ) -> (r: SteamDeckController)
        ensures
            r.evdev_path@ == evdev_path@,
            r.hidraw_path is Some <==> (usb_device matches Some(d) && exists|j: int|
                0 <= j < candidates@.len() && is_sibling(#[trigger] candidates@[j], d@)),
            r.hidraw_path matches Some(p) ==> exists|i: int|
                {
                    &&& 0 <= i < candidates@.len()
                    &&& is_sibling(candidates@[i], usb_device->0@)
                    &&& p@ == device_path((#[trigger] candidates@[i]).name@)
                    &&& forall|j: int|
                        0 <= j < candidates@.len() && is_sibling(candidates@[j], usb_device->0@)
                            ==> !crate::text::text_before(
                            (#[trigger] candidates@[j]).name@,
                            candidates@[i].name@,
                        )
                },
    {
        SteamDeckController {
            evdev_path: evdev_path.to_owned(),
            hidraw_path: match usb_device {
                Some(d) => find_controller_hidraw_for_evdev(candidates, d.as_str()),
                None => None,
            },
        }
    }
}

/// The controller is known by either of two names, wherever in the kernel's
/// name it stands, and by no other.
pub proof fn law_controller_is_known_by_two_names(
    before: Seq<char>,
    after: Seq<char>,
    other: Seq<char>,
)
    ensures
        is_known_name(before + "Steam Deck"@ + after),
        is_known_name(before + "Valve Software Steam Controller"@ + after),
        !occurs(other, "Steam Deck"@) && !occurs(other, "Valve Software Steam Controller"@)
            ==> !is_known_name(other),
{
    lemma_part_occurs(before, "Steam Deck"@, after);
    lemma_part_occurs(before, "Valve Software Steam Controller"@, after);
}

proof fn lemma_part_occurs(before: Seq<char>, p: Seq<char>, after: Seq<char>)
    ensures
        occurs(before + p + after, p),
{
    let s = before + p + after;
    let rest = s.skip(before.len() as int);
    assert(rest.take(p.len() as int) =~= p);
    assert(crate::text::starts(rest, p));
}

/// The controller's raw interface belongs to the same device and backs no
/// emulated keyboard or mouse.
pub proof fn law_raw_interface_belongs_to_the_device(c: HidrawCandidate, usb_device: Seq<char>)
    ensures
        is_sibling(c, usb_device) <==> c.usb_device is Some && c.usb_device->0@ == usb_device
            && !c.has_input,
        c.has_input ==> !is_sibling(c, usb_device),
        device_path(c.name@) == "/dev/"@ + c.name@,
{
}

/// The raw interface of an interface is the first that was found on it; none
/// where nothing was.
pub proof fn law_first_raw_interface_is_taken(
    candidates: Seq<HidrawCandidate>,
    interface: Seq<char>,
    i: int,
)
    requires
        0 <= i <= candidates.len(),
        i < candidates.len() ==> candidates[i].interface is Some && candidates[i].interface->0@
            == interface,
        forall|j: int|
            0 <= j < i && (#[trigger] candidates[j]).interface is Some
                ==> candidates[j].interface->0@ != interface,
    ensures
        i < candidates.len() ==> first_of_interface(candidates, interface) == Some(
            "/dev/"@ + candidates[i].name@,
        ),
        i == candidates.len() ==> first_of_interface(candidates, interface) is None,
    decreases candidates.len(),
{
    if candidates.len() > 0 && i > 0 {
        let rest = candidates.drop_first();
        assert forall|j: int|
            0 <= j < i - 1 && (#[trigger] rest[j]).interface is Some
                implies rest[j].interface->0@ != interface by {
            assert(rest[j] == candidates[j + 1]);
        }
        if i < candidates.len() {
            assert(rest[i - 1] == candidates[i]);
        }
        law_first_raw_interface_is_taken(rest, interface, i - 1);
    }
}

} // verus!
