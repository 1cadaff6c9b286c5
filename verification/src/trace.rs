//! Lines of a recorded trace: what a device sent and when.

use crate::axes::RawEvent;
use crate::text::{decimal, joined, joined3, number_text};
use vstd::prelude::*;

verus! {

/// A whole number as it is written.
pub open spec fn signed_decimal(n: int) -> Seq<char> {
    if n < 0 {
        "-"@ + decimal((-n) as nat)
    } else {
        decimal(n as nat)
    }
}

/// A whole number as it is written.
pub fn signed_text(n: i32) -> (r: String)
    ensures
        r@ == signed_decimal(n as int),
{
    if n < 0 {
        let positive: u64 = (-(n as i64)) as u64;
        joined("-", number_text(positive).as_str())
    } else {
        number_text(n as u64)
    }
}

/// A digit to the base of sixteen.
pub open spec fn hex_digit(n: u8) -> Seq<char> {
    match n {
        0 => "0"@,
        1 => "1"@,
        2 => "2"@,
        3 => "3"@,
        4 => "4"@,
        5 => "5"@,
        6 => "6"@,
        7 => "7"@,
        8 => "8"@,
        9 => "9"@,
        10 => "a"@,
        11 => "b"@,
        12 => "c"@,
        13 => "d"@,
        14 => "e"@,
        _ => "f"@,
    }
}

fn hex_text(n: u8) -> (r: &'static str)
    ensures
        r@ == hex_digit(n),
{
    match n {
        0 => "0",
        1 => "1",
        2 => "2",
        3 => "3",
        4 => "4",
        5 => "5",
        6 => "6",
        7 => "7",
        8 => "8",
        9 => "9",
        10 => "a",
        11 => "b",
        12 => "c",
        13 => "d",
        14 => "e",
        _ => "f",
    }
}

/// Bytes, two digits each.
pub open spec fn hex(bytes: Seq<u8>) -> Seq<char>
    decreases bytes.len(),
{
    if bytes.len() == 0 {
        Seq::empty()
    } else {
        hex(bytes.drop_last()) + hex_digit(bytes.last() / 16) + hex_digit(bytes.last() % 16)
    }
}

fn hex_of(bytes: &[u8; 64]) -> (r: String)
    ensures
        r@ == hex(bytes@),
{
    let mut r: String = String::new();
    let mut i: usize = 0;
    assert(bytes@.take(0) =~= Seq::<u8>::empty());
    while i < 64
        invariant
            i <= 64,
            r@ == hex(bytes@.take(i as int)),
        decreases 64 - i,
    {
        let b: u8 = bytes[i];
        r = joined3(r.as_str(), hex_text(b / 16), hex_text(b % 16));
        i = i + 1;
        proof {
            assert(bytes@.take(i as int).drop_last() =~= bytes@.take(i - 1));
            assert(bytes@.take(i as int).last() == bytes@[i - 1]);
        }
    }
    assert(bytes@.take(64) =~= bytes@);
    r
}

/// The line of an input event.
pub open spec fn event_line(t_us: u64, e: RawEvent) -> Seq<char> {
    "{\"t_us\":"@ + decimal(t_us as nat) + ",\"src\":\"evdev\",\"type\":"@ + decimal(e.kind as nat)
        + ",\"code\":"@ + decimal(e.code as nat) + ",\"value\":"@ + signed_decimal(e.value as int)
        + "}"@
}

/// The line of an input event, so many microseconds after the start.
pub fn trace_event(t_us: u64, e: &RawEvent) -> (r: String)
    ensures
        r@ == event_line(t_us, *e),
{
    let a: String = joined3(
        "{\"t_us\":",
        number_text(t_us).as_str(),
        ",\"src\":\"evdev\",\"type\":",
    );
    let b: String = joined3(a.as_str(), number_text(e.kind as u64).as_str(), ",\"code\":");
    let c: String = joined3(b.as_str(), number_text(e.code as u64).as_str(), ",\"value\":");
    joined3(c.as_str(), signed_text(e.value).as_str(), "}")
}

/// The line of a raw report.
pub open spec fn report_line(t_us: u64, raw: Seq<u8>) -> Seq<char> {
    "{\"t_us\":"@ + decimal(t_us as nat) + ",\"src\":\"hidraw\",\"byte10\":"@ + decimal(
        raw[10] as nat,
    ) + ",\"raw\":\""@ + hex(raw) + "\"}"@
}

/// The line of a raw report, so many microseconds after the start.
pub fn trace_report(t_us: u64, raw: &[u8; 64]) -> (r: String)
    ensures
        r@ == report_line(t_us, raw@),
{
    let a: String = joined3(
        "{\"t_us\":",
        number_text(t_us).as_str(),
        ",\"src\":\"hidraw\",\"byte10\":",
    );
    let b: String = joined3(a.as_str(), number_text(raw[10] as u64).as_str(), ",\"raw\":\"");
    joined3(b.as_str(), hex_of(raw).as_str(), "\"}")
}

/// Every byte is written as two digits to the base of sixteen, the higher one
/// first, in small letters.
pub proof fn law_bytes_are_written_in_two_digits(bytes: Seq<u8>, i: int)
    requires
        0 <= i < bytes.len(),
    ensures
        hex(bytes).len() == 2 * bytes.len(),
        hex(bytes)[2 * i] as int == (if bytes[i] / 16 < 10 {
            '0' as int + bytes[i] / 16
        } else {
            'a' as int + bytes[i] / 16 - 10
        }),
        hex(bytes)[2 * i + 1] as int == (if bytes[i] % 16 < 10 {
            '0' as int + bytes[i] % 16
        } else {
            'a' as int + bytes[i] % 16 - 10
        }),
    decreases bytes.len(),
{
    let init = bytes.drop_last();
    let b = bytes.last();
    lemma_hex_digit(b / 16);
    lemma_hex_digit(b % 16);
    if init.len() > 0 {
        let j = if i < init.len() {
            i
        } else {
            0
        };
        law_bytes_are_written_in_two_digits(init, j);
        assert(init[j] == bytes[j]);
    }
    assert(hex(bytes) == hex(init) + hex_digit(b / 16) + hex_digit(b % 16));
}

proof fn lemma_hex_digit(n: u8)
    requires
        n < 16,
    ensures
        hex_digit(n).len() == 1,
        hex_digit(n)[0] as int == (if n < 10 {
            '0' as int + n
        } else {
            'a' as int + n - 10
        }),
{
    reveal_strlit("0");
    reveal_strlit("1");
    reveal_strlit("2");
    reveal_strlit("3");
    reveal_strlit("4");
    reveal_strlit("5");
    reveal_strlit("6");
    reveal_strlit("7");
    reveal_strlit("8");
    reveal_strlit("9");
    reveal_strlit("a");
    reveal_strlit("b");
    reveal_strlit("c");
    reveal_strlit("d");
    reveal_strlit("e");
    reveal_strlit("f");
}

/// A number is written in decimal digits, with a minus sign in front where it is
/// below zero.
pub proof fn law_signs_are_written(n: nat)
    ensures
        signed_decimal(n as int) == decimal(n),
        n > 0 ==> signed_decimal(-(n as int)) == seq!['-'] + decimal(n),
{
    reveal_strlit("-");
    assert("-"@ =~= seq!['-']);
}

} // verus!
