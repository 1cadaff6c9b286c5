//! The desktop's pointer settings for the virtual trackpads, kept as sections
//! of its configuration file.

use crate::order::views;
use crate::preferences::{in_directory, join_path};
use crate::text::{
    chars_of, decimal, digit, ends, joined, joined3, number_text, part, pieces, same_text,
    split_text, starts, starts_with, text_in,
};
use vstd::prelude::*;

verus! {

/// How pointer speed follows finger speed.
#[derive(Debug, Clone, Copy, PartialEq, Eq, Structural)]
pub enum AccelerationProfile {
    Flat,
    Adaptive,
}

/// The number that stands for a profile.
pub open spec fn profile_number(p: AccelerationProfile) -> u8 {
    match p {
        AccelerationProfile::Flat => 2,
        AccelerationProfile::Adaptive => 1,
    }
}

impl Default for AccelerationProfile {
    fn default() -> (r: Self)
        ensures
            r == AccelerationProfile::Flat,
    {
        AccelerationProfile::Flat
    }
}

impl AccelerationProfile {
    /// The number that stands for the profile.
    pub fn kde_value(&self) -> (r: u8)
        ensures
            r == profile_number(*self),
    {
        match self {
            AccelerationProfile::Flat => 2,
            AccelerationProfile::Adaptive => 1,
        }
    }
}

/// Whether gestures scroll naturally where nothing is configured.
pub fn default_natural_scroll_true() -> (r: bool)
    ensures
        r,
{
    true
}

/// The settings of one pad.
#[derive(Debug, Clone, PartialEq, Eq)]
pub struct PadKdeConfig {
    pub tap_to_click: bool,
    pub disable_while_typing: bool,
    /// The pointer's speed, written with three decimals.
    pub pointer_acceleration: String,
    pub pointer_acceleration_profile: AccelerationProfile,
    pub natural_scroll: bool,
}

/// The settings of the gesture device.
#[derive(Debug, Clone, PartialEq, Eq)]
pub struct GestureKdeConfig {
    pub tap_to_click: bool,
    pub disable_while_typing: bool,
    pub natural_scroll: bool,
    /// How far a gesture scrolls, as it is written.
    pub scroll_factor: String,
    pub pointer_acceleration_profile: AccelerationProfile,
}

// ── The file ─────────────────────────────────────────────────────────────────

/// Where the desktop keeps the settings, from the variables that say so.
pub fn kcminputrc_path(config_home: &Option<String>, home: &Option<String>) -> (r: Option<String>)
    ensures
        text_in(r) == match text_in(*config_home) {
            Some(c) => if c.len() > 0 {
                Some(in_directory(c, "kcminputrc"@))
            } else {
                match text_in(*home) {
                    Some(h) => Some(in_directory(h + "/.config"@, "kcminputrc"@)),
                    None => None,
                }
            },
            None => match text_in(*home) {
                Some(h) => Some(in_directory(h + "/.config"@, "kcminputrc"@)),
                None => None,
            },
        },
{
    proof {
        reveal_strlit("");
    }
    if let Some(c) = config_home {
        proof {
            if c@.len() == 0 {
                assert(c@ =~= ""@);
            }
        }
        if !same_text(c.as_str(), "") {
            return Some(join_path(c.as_str(), "kcminputrc"));
        }
    }
    match home {
        Some(h) => {
            let directory: String = joined(h.as_str(), "/.config");
            Some(join_path(directory.as_str(), "kcminputrc"))
        },
        None => None,
    }
}

/// A line without the carriage return that belongs to its end.
pub open spec fn without_return(line: Seq<char>) -> Seq<char> {
    if line.len() > 0 && line.last() == '\r' {
        line.drop_last()
    } else {
        line
    }
}

/// The lines of a text. A line ends with a line feed, perhaps behind a carriage
/// return; behind the last one there is a further line only if it is not empty.
pub open spec fn lines_of(text: Seq<char>) -> Seq<Seq<char>> {
    let p = pieces(text, '\n');
    let ended = p.drop_last().map_values(|line: Seq<char>| without_return(line));
    if p.last().len() == 0 {
        ended
    } else {
        ended.push(p.last())
    }
}

fn strip_return(line: &str) -> (r: String)
    ensures
        r@ == without_return(line@),
{
    let x: Vec<char> = chars_of(line);
    if x.len() > 0 && x[x.len() - 1] == '\r' {
        let r: String = part(line, 0, x.len() - 1);
        assert(r@ =~= line@.drop_last());
        r
    } else {
        line.to_owned()
    }
}

/// The lines of a text.
pub fn lines(text: &str) -> (r: Vec<String>)
    ensures
        views(r@) == lines_of(text@),
{
    let p: Vec<String> = split_text(text, '\n');
    let ghost all = views(p@);
    let ghost ended = all.drop_last().map_values(|line: Seq<char>| without_return(line));
    let mut r: Vec<String> = Vec::new();
    proof {
        lemma_some_piece(text@, '\n');
    }
    let n: usize = p.len() - 1;
    let mut i: usize = 0;
    assert(views(r@) =~= ended.take(0));
    while i < n
        invariant
            i <= n,
            n + 1 == p@.len(),
            all == views(p@),
            ended == all.drop_last().map_values(|line: Seq<char>| without_return(line)),
            views(r@) == ended.take(i as int),
        decreases n - i,
    {
        let ghost before = views(r@);
        r.push(strip_return(p[i].as_str()));
        i = i + 1;
        proof {
            assert(views(r@) =~= before.push(ended[i - 1]));
            assert(ended.take(i as int) =~= ended.take(i - 1).push(ended[i - 1]));
        }
    }
    assert(ended.take(i as int) =~= ended);
    proof {
        reveal_strlit("");
        assert(all.last() == p@[n as int]@);
        if p@[n as int]@.len() == 0 {
            assert(p@[n as int]@ =~= ""@);
        }
    }
    if !same_text(p[n].as_str(), "") {
        let ghost before = views(r@);
        r.push(p[n].clone());
        assert(views(r@) =~= before.push(all.last()));
    }
    r
}

proof fn lemma_some_piece(s: Seq<char>, c: char)
    ensures
        pieces(s, c).len() > 0,
    decreases s.len(),
{
}

/// How the sections of the virtual devices begin.
pub open spec fn section_prefix(vendor: u16, product: u16) -> Seq<char> {
    "[Libinput]["@ + decimal(vendor as nat) + "]["@ + decimal(product as nat) + "]["@
}

/// Whether the last section that begins in `lines` is one of the virtual
/// devices.
pub open spec fn in_own_section(lines: Seq<Seq<char>>, prefix: Seq<char>) -> bool
    decreases lines.len(),
{
    if lines.len() == 0 {
        false
    } else if starts(lines.last(), "["@) {
        starts(lines.last(), prefix)
    } else {
        in_own_section(lines.drop_last(), prefix)
    }
}

/// The lines that do not belong to a section of the virtual devices, each with
/// its end.
pub open spec fn foreign_lines(lines: Seq<Seq<char>>, prefix: Seq<char>) -> Seq<char>
    decreases lines.len(),
{
    if lines.len() == 0 {
        Seq::empty()
    } else {
        let before = foreign_lines(lines.drop_last(), prefix);
        if in_own_section(lines, prefix) {
            before
        } else {
            before + lines.last() + "\n"@
        }
    }
}

/// A text without the line feeds at its end.
pub open spec fn without_feeds(s: Seq<char>) -> Seq<char>
    decreases s.len(),
{
    if s.len() > 0 && s.last() == '\n' {
        without_feeds(s.drop_last())
    } else {
        s
    }
}

fn strip_feeds(s: &str) -> (r: String)
    ensures
        r@ == without_feeds(s@),
{
    let x: Vec<char> = chars_of(s);
    let mut n: usize = x.len();
    assert(s@.take(n as int) =~= s@);
    while n > 0 && x[n - 1] == '\n'
        invariant
            n <= x@.len(),
            x@ == s@,
            without_feeds(s@) == without_feeds(s@.take(n as int)),
        decreases n,
    {
        proof {
            assert(s@.take(n as int).drop_last() =~= s@.take(n - 1));
        }
        n = n - 1;
    }
    let r: String = part(s, 0, n);
    assert(r@ =~= s@.take(n as int));
    r
}

/// A file without the sections of the virtual devices.
pub fn remove_deckery_sections(content: &str, vendor: u16, product: u16) -> (r: String)
    ensures
        r@ == without_feeds(foreign_lines(lines_of(content@), section_prefix(vendor, product))),
{
    let head: String = joined3("[Libinput][", number_text(vendor as u64).as_str(), "][");
    let prefix: String = joined3(head.as_str(), number_text(product as u64).as_str(), "][");
    assert(prefix@ =~= section_prefix(vendor, product));
    let all: Vec<String> = lines(content);
    let ghost s = views(all@);
    let mut result: String = String::new();
    let mut own: bool = false;
    let mut i: usize = 0;
    assert(s.take(0) =~= Seq::<Seq<char>>::empty());
    while i < all.len()
        invariant
            i <= all@.len(),
            s == views(all@),
            prefix@ == section_prefix(vendor, product),
            own == in_own_section(s.take(i as int), prefix@),
            result@ == foreign_lines(s.take(i as int), prefix@),
        decreases all@.len() - i,
    {
        if starts_with(all[i].as_str(), "[") {
            own = starts_with(all[i].as_str(), prefix.as_str());
        }
        if !own {
            result = joined3(result.as_str(), all[i].as_str(), "\n");
        }
        i = i + 1;
        proof {
            assert(s.take(i as int).drop_last() =~= s.take(i - 1));
            assert(s.take(i as int).last() == s[i - 1]);
        }
    }
    assert(s.take(i as int) =~= s);
    strip_feeds(result.as_str())
}

// ── Sections ─────────────────────────────────────────────────────────────────

/// How a switch is written.
pub open spec fn switch_text(on: bool) -> Seq<char> {
    if on {
        "true"@
    } else {
        "false"@
    }
}

fn switch_word(on: bool) -> (r: &'static str)
    ensures
        r@ == switch_text(on),
{
    if on {
        "true"
    } else {
        "false"
    }
}

/// The line that begins a section, with an empty line before it.
pub open spec fn section_line(vendor: u16, product: u16, name: Seq<char>) -> Seq<char> {
    "\n"@ + section_prefix(vendor, product) + name + "]\n"@
}

/// A line of a section.
pub open spec fn entry_line(key: Seq<char>, value: Seq<char>) -> Seq<char> {
    key + "="@ + value + "\n"@
}

fn entry(out: &str, key: &str, value: &str) -> (r: String)
    ensures
        r@ == out@ + entry_line(key@, value@),
{
    let line: String = joined(joined3(key, "=", value).as_str(), "\n");
    joined(out, line.as_str())
}

fn section(out: &str, vendor: u16, product: u16, name: &str) -> (r: String)
    ensures
        r@ == out@ + section_line(vendor, product, name@),
{
    let head: String = joined3("[Libinput][", number_text(vendor as u64).as_str(), "][");
    let prefix: String = joined3(head.as_str(), number_text(product as u64).as_str(), "][");
    assert(prefix@ =~= section_prefix(vendor, product));
    let line: String = joined3("\n", prefix.as_str(), joined(name, "]\n").as_str());
    assert(line@ =~= section_line(vendor, product, name@));
    joined(out, line.as_str())
}

/// The section of one pad.
pub open spec fn pad_section(
    vendor: u16,
    product: u16,
    name: Seq<char>,
    c: PadKdeConfig,
) -> Seq<char> {
    section_line(vendor, product, name) + entry_line(
        "DisableWhileTyping"@,
        switch_text(c.disable_while_typing),
    ) + entry_line("NaturalScroll"@, switch_text(c.natural_scroll)) + entry_line(
        "PointerAcceleration"@,
        c.pointer_acceleration@,
    ) + entry_line(
        "PointerAccelerationProfile"@,
        decimal(profile_number(c.pointer_acceleration_profile) as nat),
    ) + entry_line("TapToClick"@, switch_text(c.tap_to_click))
}

/// Add the section of one pad.
pub fn write_pad_section(
    out: &str,
    vendor: u16,
    product: u16,
    name: &str,
    cfg: &PadKdeConfig,
) -> (r: String)
    ensures
        r@ == out@ + pad_section(vendor, product, name@, *cfg),
{
    let a: String = section(out, vendor, product, name);
    let b: String = entry(a.as_str(), "DisableWhileTyping", switch_word(cfg.disable_while_typing));
    let c: String = entry(b.as_str(), "NaturalScroll", switch_word(cfg.natural_scroll));
    let d: String = entry(c.as_str(), "PointerAcceleration", cfg.pointer_acceleration.as_str());
    let e: String = entry(
        d.as_str(),
        "PointerAccelerationProfile",
        number_text(cfg.pointer_acceleration_profile.kde_value() as u64).as_str(),
    );
    let f: String = entry(e.as_str(), "TapToClick", switch_word(cfg.tap_to_click));
    assert(f@ =~= out@ + pad_section(vendor, product, name@, *cfg));
    f
}

/// The section of the gesture device.
pub open spec fn gesture_section(vendor: u16, product: u16, c: GestureKdeConfig) -> Seq<char> {
    section_line(vendor, product, "Deckery Combined Trackpad"@) + entry_line(
        "DisableWhileTyping"@,
        switch_text(c.disable_while_typing),
    ) + entry_line("NaturalScroll"@, switch_text(c.natural_scroll)) + entry_line(
        "PointerAccelerationProfile"@,
        decimal(profile_number(c.pointer_acceleration_profile) as nat),
    ) + entry_line("ScrollFactor"@, c.scroll_factor@) + entry_line(
        "TapToClick"@,
        switch_text(c.tap_to_click),
    )
}

/// Add the section of the gesture device.
pub fn write_gesture_section(
    out: &str,
    vendor: u16,
    product: u16,
    cfg: &GestureKdeConfig,
) -> (r: String)
    ensures
        r@ == out@ + gesture_section(vendor, product, *cfg),
{
    let a: String = section(out, vendor, product, "Deckery Combined Trackpad");
    let b: String = entry(a.as_str(), "DisableWhileTyping", switch_word(cfg.disable_while_typing));
    let c: String = entry(b.as_str(), "NaturalScroll", switch_word(cfg.natural_scroll));
    let d: String = entry(
        c.as_str(),
        "PointerAccelerationProfile",
        number_text(cfg.pointer_acceleration_profile.kde_value() as u64).as_str(),
    );
    let e: String = entry(d.as_str(), "ScrollFactor", cfg.scroll_factor.as_str());
    let f: String = entry(e.as_str(), "TapToClick", switch_word(cfg.tap_to_click));
    assert(f@ =~= out@ + gesture_section(vendor, product, *cfg));
    f
}

/// A file with the sections of the virtual devices written anew.
pub open spec fn with_defaults(
    content: Seq<char>,
    vendor: u16,
    product: u16,
    left: PadKdeConfig,
    right: PadKdeConfig,
    gesture: GestureKdeConfig,
) -> Seq<char> {
    without_feeds(foreign_lines(lines_of(content), section_prefix(vendor, product))) + pad_section(
        vendor,
        product,
        "Deckery Left Trackpad"@,
        left,
    ) + pad_section(vendor, product, "Deckery Right Trackpad"@, right) + gesture_section(
        vendor,
        product,
        gesture,
    ) + "\n"@
}

/// Write the sections of the virtual devices anew.
pub fn ensure_kde_input_defaults(
    content: &str,
    vendor: u16,
    product: u16,
    left: &PadKdeConfig,
    right: &PadKdeConfig,
    gesture: &GestureKdeConfig,
) -> (r: String)
    ensures
        r@ == with_defaults(content@, vendor, product, *left, *right, *gesture),
{
    let a: String = remove_deckery_sections(content, vendor, product);
    let b: String = write_pad_section(a.as_str(), vendor, product, "Deckery Left Trackpad", left);
    let c: String = write_pad_section(b.as_str(), vendor, product, "Deckery Right Trackpad", right);
    let d: String = write_gesture_section(c.as_str(), vendor, product, gesture);
    joined(d.as_str(), "\n")
}

// ── Writing again ────────────────────────────────────────────────────────────

/// Lines as a text, each with its end.
pub open spec fn unlines(lines: Seq<Seq<char>>) -> Seq<char>
    decreases lines.len(),
{
    if lines.len() == 0 {
        Seq::empty()
    } else {
        unlines(lines.drop_last()) + lines.last() + "\n"@
    }
}

/// Whether no line holds the end of a line.
spec fn single(lines: Seq<Seq<char>>) -> bool {
    forall|i: int| 0 <= i < lines.len() ==> !(#[trigger] lines[i]).contains('\n')
}

/// Whether no line that is kept ends in a carriage return of its own.
pub open spec fn plainly_ended(lines: Seq<Seq<char>>, prefix: Seq<char>) -> bool {
    forall|k: int|
        0 <= k < lines.len() && !in_own_section(#[trigger] lines.take(k + 1), prefix)
            ==> without_return(lines[k]) == lines[k]
}

proof fn lemma_unlines_add(a: Seq<Seq<char>>, b: Seq<Seq<char>>)
    ensures
        unlines(a + b) == unlines(a) + unlines(b),
    decreases b.len(),
{
    if b.len() == 0 {
        assert(a + b =~= a);
        assert(unlines(a) + unlines(b) =~= unlines(a));
    } else {
        assert((a + b).drop_last() =~= a + b.drop_last());
        lemma_unlines_add(a, b.drop_last());
        assert(unlines(a + b) =~= unlines(a) + unlines(b));
    }
}

proof fn lemma_unlines_push(a: Seq<Seq<char>>, line: Seq<char>)
    ensures
        unlines(a.push(line)) == unlines(a) + line + "\n"@,
{
    assert(a.push(line).drop_last() =~= a);
}

pub(crate) proof fn lemma_pieces_add(a: Seq<char>, b: Seq<char>, c: char)
    ensures
        pieces(a.push(c) + b, c) == pieces(a, c) + pieces(b, c),
    decreases b.len(),
{
    lemma_some_piece(b, c);
    if b.len() == 0 {
        assert((a.push(c) + b).drop_last() =~= a);
        assert(pieces(a, c) + pieces(b, c) =~= pieces(a, c).push(Seq::empty()));
    } else {
        let shorter = b.drop_last();
        lemma_some_piece(shorter, c);
        lemma_pieces_add(a, shorter, c);
        assert((a.push(c) + b).drop_last() =~= a.push(c) + shorter);
        let init = pieces(a, c) + pieces(shorter, c);
        assert(init.last() == pieces(shorter, c).last());
        assert(init.drop_last() =~= pieces(a, c) + pieces(shorter, c).drop_last());
        assert(pieces(a.push(c) + b, c) =~= pieces(a, c) + pieces(b, c));
    }
}

pub(crate) proof fn lemma_one_piece(s: Seq<char>, c: char)
    requires
        !s.contains(c),
    ensures
        pieces(s, c) == seq![s],
    decreases s.len(),
{
    if s.len() > 0 {
        let shorter = s.drop_last();
        assert forall|i: int| 0 <= i < shorter.len() implies shorter[i] != c by {
            assert(shorter[i] == s[i]);
        }
        lemma_one_piece(shorter, c);
        assert(s.last() != c);
        assert(shorter.push(s.last()) =~= s);
        assert(pieces(s, c) =~= seq![s]);
    } else {
        assert(s =~= Seq::<char>::empty());
    }
}

/// No piece of a text holds what the text was divided at.
proof fn lemma_pieces_single(s: Seq<char>)
    ensures
        single(pieces(s, '\n')),
    decreases s.len(),
{
    if s.len() > 0 {
        lemma_pieces_single(s.drop_last());
        lemma_some_piece(s.drop_last(), '\n');
        let init = pieces(s.drop_last(), '\n');
        let p = pieces(s, '\n');
        assert forall|i: int| 0 <= i < p.len() implies !(#[trigger] p[i]).contains('\n') by {
            if s.last() != '\n' && i == init.len() - 1 {
                assert(!init[i].contains('\n'));
                assert forall|j: int| 0 <= j < p[i].len() implies p[i][j] != '\n' by {
                    if j < init[i].len() {
                        assert(p[i][j] == init[i][j]);
                    }
                }
            } else if i < init.len() {
                assert(p[i] == init[i]);
            }
        }
    }
}

/// Dividing lines that were put together gives them back.
proof fn lemma_pieces_of_unlines(lines: Seq<Seq<char>>)
    requires
        single(lines),
    ensures
        pieces(unlines(lines), '\n') == lines.push(Seq::empty()),
    decreases lines.len(),
{
    reveal_strlit("\n");
    if lines.len() > 0 {
        let shorter = lines.drop_last();
        assert forall|i: int| 0 <= i < shorter.len() implies !(#[trigger] shorter[i]).contains(
            '\n',
        ) by {
            assert(shorter[i] == lines[i]);
        }
        lemma_pieces_of_unlines(shorter);
        let line = lines.last();
        assert(!lines[lines.len() - 1].contains('\n'));
        lemma_one_piece(line, '\n');
        let front = unlines(shorter) + line;
        assert(unlines(lines) =~= front.push('\n') + Seq::<char>::empty());
        lemma_pieces_add(front, Seq::empty(), '\n');
        if shorter.len() == 0 {
            assert(front =~= line);
            assert(pieces(front, '\n') =~= lines);
        } else {
            let most = unlines(shorter.drop_last()) + shorter.last();
            assert(unlines(shorter) =~= most.push('\n'));
            assert(unlines(shorter) =~= most.push('\n') + Seq::<char>::empty());
            lemma_pieces_add(most, Seq::empty(), '\n');
            lemma_pieces_add(most, line, '\n');
            assert(pieces(most, '\n') + seq![Seq::<char>::empty()] == shorter.push(Seq::empty()));
            assert(pieces(most, '\n') =~= (pieces(most, '\n') + seq![
                Seq::<char>::empty(),
            ]).drop_last());
            assert(shorter =~= shorter.push(Seq::<char>::empty()).drop_last());
            assert(front =~= most.push('\n') + line);
            assert(pieces(front, '\n') =~= lines);
        }
        assert(pieces(unlines(lines), '\n') =~= lines.push(Seq::empty()));
    } else {
        assert(pieces(unlines(lines), '\n') =~= lines.push(Seq::empty()));
    }
}

/// The pieces of a text put together are the text with an end.
proof fn lemma_unlines_of_pieces(s: Seq<char>)
    ensures
        unlines(pieces(s, '\n')) == s + "\n"@,
    decreases s.len(),
{
    reveal_strlit("\n");
    let p = pieces(s, '\n');
    if s.len() == 0 {
        lemma_unlines_push(Seq::empty(), Seq::empty());
        assert(Seq::<Seq<char>>::empty().push(Seq::<char>::empty()) =~= p);
        assert(unlines(p) =~= s + "\n"@);
    } else {
        let shorter = s.drop_last();
        let init = pieces(shorter, '\n');
        lemma_some_piece(shorter, '\n');
        lemma_unlines_of_pieces(shorter);
        if s.last() == '\n' {
            lemma_unlines_push(init, Seq::empty());
            assert(unlines(p) =~= s + "\n"@);
        } else {
            lemma_unlines_push(init.drop_last(), init.last().push(s.last()));
            assert(init =~= init.drop_last().push(init.last()));
            lemma_unlines_push(init.drop_last(), init.last());
            let front = unlines(init.drop_last());
            assert(front + init.last() + "\n"@ =~= shorter.push('\n'));
            assert(front + init.last() =~= shorter.push('\n').drop_last());
            assert(shorter.push('\n').drop_last() =~= shorter);
            assert(unlines(p) =~= (front + init.last()).push(s.last()) + "\n"@);
            assert(shorter.push(s.last()) =~= s);
        }
    }
}

/// Without the ends of lines at its end, a text has fewer pieces, and no
/// others.
proof fn lemma_pieces_without_feeds(s: Seq<char>)
    ensures
        pieces(without_feeds(s), '\n').len() <= pieces(s, '\n').len(),
        forall|i: int|
            0 <= i < pieces(without_feeds(s), '\n').len() ==> #[trigger] pieces(
                without_feeds(s),
                '\n',
            )[i] == pieces(s, '\n')[i],
        without_feeds(without_feeds(s)) == without_feeds(s),
    decreases s.len(),
{
    if s.len() > 0 && s.last() == '\n' {
        lemma_pieces_without_feeds(s.drop_last());
    }
}

proof fn lemma_prefix_begins(vendor: u16, product: u16)
    ensures
        section_prefix(vendor, product).len() > 0,
        section_prefix(vendor, product)[0] == '[',
        !section_prefix(vendor, product).contains('\n'),
        forall|s: Seq<char>| #[trigger]
            starts(s, section_prefix(vendor, product)) ==> starts(s, "["@),
{
    reveal_strlit("[Libinput][");
    reveal_strlit("][");
    reveal_strlit("[");
    let p = section_prefix(vendor, product);
    lemma_decimal_single(vendor as nat);
    lemma_decimal_single(product as nat);
    assert(p[0] == '[');
    assert forall|i: int| 0 <= i < p.len() implies p[i] != '\n' by {
        let a = decimal(vendor as nat);
        let b = decimal(product as nat);
        if 11 <= i < 11 + a.len() {
            assert(p[i] == a[i - 11]);
        } else if 13 + a.len() <= i < 13 + a.len() + b.len() {
            assert(p[i] == b[i - 13 - a.len()]);
        }
    }
    assert forall|s: Seq<char>| #[trigger] starts(s, p) implies starts(s, "["@) by {
        assert(s.take(p.len() as int)[0] == p[0]);
        assert(s.take(1) =~= "["@);
    }
}

/// What is kept of lines: those that do not belong to a section of the virtual
/// devices.
pub open spec fn kept(lines: Seq<Seq<char>>, prefix: Seq<char>) -> Seq<Seq<char>>
    decreases lines.len(),
{
    if lines.len() == 0 {
        Seq::empty()
    } else {
        let before = kept(lines.drop_last(), prefix);
        if in_own_section(lines, prefix) {
            before
        } else {
            before.push(lines.last())
        }
    }
}

/// What is kept is some of the lines, none of which begins a section of the
/// virtual devices.
proof fn lemma_kept(lines: Seq<Seq<char>>, vendor: u16, product: u16)
    requires
        single(lines),
        plainly_ended(lines, section_prefix(vendor, product)),
    ensures
        ({
            let prefix = section_prefix(vendor, product);
            let k = kept(lines, prefix);
            &&& foreign_lines(lines, prefix) == unlines(k)
            &&& single(k)
            &&& forall|i: int|
                0 <= i < k.len() ==> !starts(#[trigger] k[i], prefix) && without_return(k[i])
                    == k[i]
        }),
    decreases lines.len(),
{
    let prefix = section_prefix(vendor, product);
    lemma_prefix_begins(vendor, product);
    if lines.len() > 0 {
        let shorter = lines.drop_last();
        assert forall|i: int| 0 <= i < shorter.len() implies !(#[trigger] shorter[i]).contains(
            '\n',
        ) by {
            assert(shorter[i] == lines[i]);
        }
        assert forall|i: int|
            0 <= i < shorter.len() && !in_own_section(
                #[trigger] shorter.take(i + 1),
                prefix,
            ) implies without_return(shorter[i]) == shorter[i] by {
            assert(shorter.take(i + 1) =~= lines.take(i + 1));
        }
        lemma_kept(shorter, vendor, product);
        assert(lines.take(lines.len() - 1 + 1) =~= lines);
        let before = kept(shorter, prefix);
        let k = kept(lines, prefix);
        if !in_own_section(lines, prefix) {
            assert(!starts(lines.last(), prefix));
            assert(without_return(lines[lines.len() - 1]) == lines[lines.len() - 1]);
            assert(!lines[lines.len() - 1].contains('\n'));
            lemma_unlines_push(before, lines.last());
            assert forall|i: int| 0 <= i < k.len() implies !starts(#[trigger] k[i], prefix)
                && without_return(k[i]) == k[i] && !k[i].contains('\n') by {
                if i < before.len() {
                    assert(k[i] == before[i]);
                    assert(!before[i].contains('\n'));
                }
            }
        }
    }
}

/// Lines of which none begins a section of the virtual devices are kept.
proof fn lemma_all_foreign(lines: Seq<Seq<char>>, prefix: Seq<char>)
    requires
        forall|i: int| 0 <= i < lines.len() ==> !starts(#[trigger] lines[i], prefix),
    ensures
        !in_own_section(lines, prefix),
        foreign_lines(lines, prefix) == unlines(lines),
    decreases lines.len(),
{
    if lines.len() > 0 {
        let shorter = lines.drop_last();
        assert forall|i: int| 0 <= i < shorter.len() implies !starts(
            #[trigger] shorter[i],
            prefix,
        ) by {
            assert(shorter[i] == lines[i]);
        }
        lemma_all_foreign(shorter, prefix);
        assert(!starts(lines[lines.len() - 1], prefix));
    }
}

/// Whether lines are sections of the virtual devices and nothing else.
spec fn all_own(lines: Seq<Seq<char>>, prefix: Seq<char>) -> bool {
    &&& lines.len() > 0 ==> starts(lines[0], prefix) && starts(lines[0], "["@)
    &&& forall|i: int|
        0 <= i < lines.len() && starts(#[trigger] lines[i], "["@) ==> starts(lines[i], prefix)
}

/// Sections of the virtual devices are not kept.
proof fn lemma_own_dropped(lines: Seq<Seq<char>>, own: Seq<Seq<char>>, prefix: Seq<char>)
    requires
        all_own(own, prefix),
    ensures
        own.len() > 0 ==> in_own_section(lines + own, prefix),
        foreign_lines(lines + own, prefix) == foreign_lines(lines, prefix),
    decreases own.len(),
{
    if own.len() == 0 {
        assert(lines + own =~= lines);
    } else {
        let shorter = own.drop_last();
        assert forall|i: int|
            0 <= i < shorter.len() && starts(#[trigger] shorter[i], "["@) implies starts(
            shorter[i],
            prefix,
        ) by {
            assert(shorter[i] == own[i]);
        }
        lemma_own_dropped(lines, shorter, prefix);
        assert((lines + own).drop_last() =~= lines + shorter);
        assert((lines + own).last() == own[own.len() - 1]);
    }
}

proof fn lemma_decimal_single(n: nat)
    ensures
        !decimal(n).contains('\n'),
    decreases n,
{
    let d = decimal(n);
    assert forall|k: int| 0 <= k < 10 implies #[trigger] digit(k) != '\n' by {}
    if n < 10 {
        assert(digit(n as int) != '\n');
    } else {
        lemma_decimal_single(n / 10);
        assert(digit((n % 10) as int) != '\n');
        assert forall|i: int| 0 <= i < d.len() implies d[i] != '\n' by {
            if i < d.len() - 1 {
                assert(d[i] == decimal(n / 10)[i]);
            }
        }
    }
}

/// A line of a section, without its end.
spec fn bare_entry(key: Seq<char>, value: Seq<char>) -> Seq<char> {
    key + "="@ + value
}

/// The line that begins a section, without its end.
spec fn bare_header(vendor: u16, product: u16, name: Seq<char>) -> Seq<char> {
    section_prefix(vendor, product) + name + "]"@
}

/// Whether a line can stand behind the first of a section: it does not begin
/// another one, and is one line.
spec fn is_entry(line: Seq<char>) -> bool {
    &&& line.len() > 0 ==> line[0] != '['
    &&& !line.contains('\n')
}

proof fn lemma_entry(key: Seq<char>, value: Seq<char>)
    requires
        key.len() > 0,
        key[0] != '[',
        !key.contains('\n'),
        !value.contains('\n'),
    ensures
        is_entry(bare_entry(key, value)),
        entry_line(key, value) == bare_entry(key, value) + "\n"@,
{
    reveal_strlit("=");
    let line = bare_entry(key, value);
    assert(line[0] == key[0]);
    assert forall|i: int| 0 <= i < line.len() implies line[i] != '\n' by {
        if i < key.len() {
            assert(line[i] == key[i]);
        } else if i > key.len() {
            assert(line[i] == value[i - key.len() - 1]);
        }
    }
    assert(entry_line(key, value) =~= line + "\n"@);
}

/// Whether a text is one section of the virtual devices with an empty line
/// before it.
spec fn is_section(t: Seq<char>, lines: Seq<Seq<char>>, prefix: Seq<char>) -> bool {
    &&& t == "\n"@ + unlines(lines)
    &&& lines.len() == 6
    &&& starts(lines[0], prefix)
    &&& without_return(lines[0]) == lines[0]
    &&& !lines[0].contains('\n')
    &&& forall|i: int| 1 <= i < lines.len() ==> is_entry(#[trigger] lines[i])
}

proof fn lemma_section(
    vendor: u16,
    product: u16,
    name: Seq<char>,
    a: Seq<char>,
    b: Seq<char>,
    c: Seq<char>,
    d: Seq<char>,
    e: Seq<char>,
)
    requires
        !name.contains('\n'),
        is_entry(a),
        is_entry(b),
        is_entry(c),
        is_entry(d),
        is_entry(e),
    ensures
        is_section(
            section_line(vendor, product, name) + (a + "\n"@) + (b + "\n"@) + (c + "\n"@) + (d
                + "\n"@) + (e + "\n"@),
            seq![bare_header(vendor, product, name), a, b, c, d, e],
            section_prefix(vendor, product),
        ),
{
    reveal_strlit("\n");
    reveal_strlit("]");
    reveal_strlit("]\n");
    lemma_prefix_begins(vendor, product);
    let p = section_prefix(vendor, product);
    let h = bare_header(vendor, product, name);
    let e0 = Seq::<Seq<char>>::empty();
    lemma_unlines_push(e0, h);
    lemma_unlines_push(e0.push(h), a);
    lemma_unlines_push(e0.push(h).push(a), b);
    lemma_unlines_push(e0.push(h).push(a).push(b), c);
    lemma_unlines_push(e0.push(h).push(a).push(b).push(c), d);
    lemma_unlines_push(e0.push(h).push(a).push(b).push(c).push(d), e);
    let l = seq![h, a, b, c, d, e];
    assert(l =~= e0.push(h).push(a).push(b).push(c).push(d).push(e));
    assert(section_line(vendor, product, name) =~= "\n"@ + h + "\n"@);
    assert(section_line(vendor, product, name) + (a + "\n"@) + (b + "\n"@) + (c + "\n"@) + (d
        + "\n"@) + (e + "\n"@) =~= "\n"@ + unlines(l));
    assert(h.take(p.len() as int) =~= p);
    assert(h.last() == ']');
    assert forall|i: int| 0 <= i < h.len() implies h[i] != '\n' by {
        if i < p.len() {
            assert(h[i] == p[i]);
        } else if i < p.len() + name.len() {
            assert(h[i] == name[i - p.len()]);
        }
    }
}

proof fn lemma_switch_single(on: bool)
    ensures
        !switch_text(on).contains('\n'),
{
    reveal_strlit("true");
    reveal_strlit("false");
}

proof fn lemma_pad_section(vendor: u16, product: u16, name: Seq<char>, c: PadKdeConfig) -> (lines: Seq<
    Seq<char>,
>)
    requires
        !name.contains('\n'),
        !c.pointer_acceleration@.contains('\n'),
    ensures
        is_section(
            pad_section(vendor, product, name, c),
            lines,
            section_prefix(vendor, product),
        ),
{
    reveal_strlit("DisableWhileTyping");
    reveal_strlit("NaturalScroll");
    reveal_strlit("PointerAcceleration");
    reveal_strlit("PointerAccelerationProfile");
    reveal_strlit("TapToClick");
    let profile = decimal(profile_number(c.pointer_acceleration_profile) as nat);
    lemma_decimal_single(profile_number(c.pointer_acceleration_profile) as nat);
    lemma_switch_single(true);
    lemma_switch_single(false);
    lemma_entry("DisableWhileTyping"@, switch_text(c.disable_while_typing));
    lemma_entry("NaturalScroll"@, switch_text(c.natural_scroll));
    lemma_entry("PointerAcceleration"@, c.pointer_acceleration@);
    lemma_entry("PointerAccelerationProfile"@, profile);
    lemma_entry("TapToClick"@, switch_text(c.tap_to_click));
    let l = seq![
        bare_header(vendor, product, name),
        bare_entry("DisableWhileTyping"@, switch_text(c.disable_while_typing)),
        bare_entry("NaturalScroll"@, switch_text(c.natural_scroll)),
        bare_entry("PointerAcceleration"@, c.pointer_acceleration@),
        bare_entry("PointerAccelerationProfile"@, profile),
        bare_entry("TapToClick"@, switch_text(c.tap_to_click)),
    ];
    lemma_section(vendor, product, name, l[1], l[2], l[3], l[4], l[5]);
    l
}

proof fn lemma_gesture_section(vendor: u16, product: u16, c: GestureKdeConfig) -> (lines: Seq<
    Seq<char>,
>)
    requires
        !c.scroll_factor@.contains('\n'),
    ensures
        is_section(
            gesture_section(vendor, product, c),
            lines,
            section_prefix(vendor, product),
        ),
{
    reveal_strlit("Deckery Combined Trackpad");
    reveal_strlit("DisableWhileTyping");
    reveal_strlit("NaturalScroll");
    reveal_strlit("PointerAccelerationProfile");
    reveal_strlit("ScrollFactor");
    reveal_strlit("TapToClick");
    let profile = decimal(profile_number(c.pointer_acceleration_profile) as nat);
    lemma_decimal_single(profile_number(c.pointer_acceleration_profile) as nat);
    lemma_switch_single(true);
    lemma_switch_single(false);
    lemma_entry("DisableWhileTyping"@, switch_text(c.disable_while_typing));
    lemma_entry("NaturalScroll"@, switch_text(c.natural_scroll));
    lemma_entry("PointerAccelerationProfile"@, profile);
    lemma_entry("ScrollFactor"@, c.scroll_factor@);
    lemma_entry("TapToClick"@, switch_text(c.tap_to_click));
    let l = seq![
        bare_header(vendor, product, "Deckery Combined Trackpad"@),
        bare_entry("DisableWhileTyping"@, switch_text(c.disable_while_typing)),
        bare_entry("NaturalScroll"@, switch_text(c.natural_scroll)),
        bare_entry("PointerAccelerationProfile"@, profile),
        bare_entry("ScrollFactor"@, c.scroll_factor@),
        bare_entry("TapToClick"@, switch_text(c.tap_to_click)),
    ];
    lemma_section(
        vendor,
        product,
        "Deckery Combined Trackpad"@,
        l[1],
        l[2],
        l[3],
        l[4],
        l[5],
    );
    l
}

/// The sections of a file as lines, from the one that begins the first.
proof fn lemma_three_sections(
    rest: Seq<char>,
    x: Seq<char>,
    y: Seq<char>,
    z: Seq<char>,
    a: Seq<Seq<char>>,
    b: Seq<Seq<char>>,
    c: Seq<Seq<char>>,
    prefix: Seq<char>,
) -> (own: Seq<Seq<char>>)
    requires
        prefix.len() > 0,
        prefix[0] == '[',
        is_section(x, a, prefix),
        is_section(y, b, prefix),
        is_section(z, c, prefix),
    ensures
        rest + x + y + z + "\n"@ == rest.push('\n') + unlines(own),
        single(own),
        all_own(own.map_values(|line: Seq<char>| without_return(line)), prefix),
{
    reveal_strlit("\n");
    reveal_strlit("[");
    let e = Seq::<char>::empty();
    let own = a.push(e) + b.push(e) + c.push(e);
    lemma_unlines_push(a, e);
    lemma_unlines_push(b, e);
    lemma_unlines_push(c, e);
    lemma_unlines_add(a.push(e), b.push(e));
    lemma_unlines_add(a.push(e) + b.push(e), c.push(e));
    assert(rest + x + y + z + "\n"@ =~= rest.push('\n') + unlines(own));
    let shown = own.map_values(|line: Seq<char>| without_return(line));
    assert(own.len() == 21);
    assert forall|i: int| 0 <= i < 21 implies !(#[trigger] own[i]).contains('\n') && (starts(
        shown[i],
        "["@,
    ) ==> starts(shown[i], prefix)) by {
        if i < 6 {
            assert(own[i] == a[i]);
            assert(i > 0 ==> is_entry(a[i]));
        } else if i == 6 || i == 13 || i == 20 {
            assert(own[i] == e);
        } else if i < 13 {
            assert(own[i] == b[i - 7]);
            assert(i > 7 ==> is_entry(b[i - 7]));
        } else {
            assert(own[i] == c[i - 14]);
            assert(i > 14 ==> is_entry(c[i - 14]));
        }
        if i != 0 && i != 7 && i != 14 {
            assert(own[i].len() > 0 ==> own[i][0] != '[');
            if starts(shown[i], "["@) {
                assert(shown[i].take(1)[0] == '[');
                assert(shown[i][0] == own[i][0]);
            }
        }
    }
    assert(shown[0] == a[0]);
    assert(shown[0].take(prefix.len() as int)[0] == prefix[0]);
    assert(shown[0].take(1) =~= "["@);
    own
}

/// Writing the sections again replaces the ones that were written before and
/// leaves the rest of the file as the first time left it: only the settings
/// that were written last count. A line with a carriage return of its own at
/// its end is left out, since each time a file is read one such is taken away.
pub proof fn law_writing_again_replaces(
    content: Seq<char>,
    vendor: u16,
    product: u16,
    before: (PadKdeConfig, PadKdeConfig, GestureKdeConfig),
    after: (PadKdeConfig, PadKdeConfig, GestureKdeConfig),
)
    requires
        plainly_ended(lines_of(content), section_prefix(vendor, product)),
        !before.0.pointer_acceleration@.contains('\n'),
        !before.1.pointer_acceleration@.contains('\n'),
        !before.2.scroll_factor@.contains('\n'),
    ensures
        with_defaults(
            with_defaults(content, vendor, product, before.0, before.1, before.2),
            vendor,
            product,
            after.0,
            after.1,
            after.2,
        ) == with_defaults(content, vendor, product, after.0, after.1, after.2),
{
    reveal_strlit("\n");
    reveal_strlit("Deckery Left Trackpad");
    reveal_strlit("Deckery Right Trackpad");
    let prefix = section_prefix(vendor, product);
    let lines = lines_of(content);
    lemma_lines_single(content);
    lemma_kept(lines, vendor, product);
    lemma_prefix_begins(vendor, product);
    let k = kept(lines, prefix);
    let all = foreign_lines(lines, prefix);
    let rest = without_feeds(all);
    lemma_pieces_of_unlines(k);
    lemma_pieces_without_feeds(all);
    let p = pieces(rest, '\n');
    assert forall|i: int| 0 <= i < p.len() implies !starts(#[trigger] p[i], prefix)
        && without_return(p[i]) == p[i] by {
        assert(p[i] == k.push(Seq::empty())[i]);
        if i < k.len() {
            assert(p[i] == k[i]);
        }
    }
    lemma_all_foreign(p, prefix);
    lemma_unlines_of_pieces(rest);
    let x = pad_section(vendor, product, "Deckery Left Trackpad"@, before.0);
    let y = pad_section(vendor, product, "Deckery Right Trackpad"@, before.1);
    let z = gesture_section(vendor, product, before.2);
    let a = lemma_pad_section(vendor, product, "Deckery Left Trackpad"@, before.0);
    let b = lemma_pad_section(vendor, product, "Deckery Right Trackpad"@, before.1);
    let c = lemma_gesture_section(vendor, product, before.2);
    let own = lemma_three_sections(rest, x, y, z, a, b, c, prefix);
    let shown = own.map_values(|line: Seq<char>| without_return(line));
    let once = with_defaults(content, vendor, product, before.0, before.1, before.2);
    assert(once == rest.push('\n') + unlines(own));
    lemma_pieces_add(rest, unlines(own), '\n');
    lemma_pieces_of_unlines(own);
    let q = pieces(once, '\n');
    assert(q.last() == Seq::<char>::empty());
    assert(lines_of(once) =~= p + shown) by {
        assert(q =~= p + own.push(Seq::empty()));
        assert(q.drop_last() =~= p + own);
        let ended = q.drop_last().map_values(|line: Seq<char>| without_return(line));
        assert(lines_of(once) == ended);
        assert forall|i: int| 0 <= i < ended.len() implies ended[i] == (p + shown)[i] by {
            if i < p.len() {
                assert(ended[i] == without_return(p[i]));
            } else {
                assert(ended[i] == without_return(own[i - p.len()]));
            }
        }
    }
    lemma_own_dropped(p, shown, prefix);
    assert(foreign_lines(lines_of(once), prefix) == rest.push('\n')) by {
        assert(rest + "\n"@ =~= rest.push('\n'));
    }
    assert(rest.push('\n').drop_last() =~= rest);
    assert(without_feeds(rest.push('\n')) == without_feeds(rest));
}

proof fn lemma_lines_single(text: Seq<char>)
    ensures
        single(lines_of(text)),
{
    lemma_pieces_single(text);
    lemma_some_piece(text, '\n');
    let p = pieces(text, '\n');
    let l = lines_of(text);
    assert forall|i: int| 0 <= i < l.len() implies !(#[trigger] l[i]).contains('\n') by {
        assert(!p[i].contains('\n'));
        if i < p.len() - 1 {
            assert(l[i] == without_return(p[i]));
            assert forall|j: int| 0 <= j < l[i].len() implies l[i][j] != '\n' by {
                assert(l[i][j] == p[i][j]);
            }
        }
    }
}

/// Lines without the empty ones at their end.
pub open spec fn without_empty_end(lines: Seq<Seq<char>>) -> Seq<Seq<char>>
    decreases lines.len(),
{
    if lines.len() > 0 && lines.last().len() == 0 {
        without_empty_end(lines.drop_last())
    } else {
        lines
    }
}

/// A character that a text does not hold is in none of its pieces.
proof fn lemma_pieces_free(s: Seq<char>, c: char, d: char)
    requires
        !s.contains(d),
    ensures
        forall|i: int|
            0 <= i < pieces(s, c).len() ==> !(#[trigger] pieces(s, c)[i]).contains(d),
    decreases s.len(),
{
    if s.len() > 0 {
        let shorter = s.drop_last();
        assert forall|i: int| 0 <= i < shorter.len() implies shorter[i] != d by {
            assert(shorter[i] == s[i]);
        }
        lemma_pieces_free(shorter, c, d);
        lemma_some_piece(shorter, c);
        let init = pieces(shorter, c);
        let p = pieces(s, c);
        assert(s.last() != d);
        assert forall|i: int| 0 <= i < p.len() implies !(#[trigger] p[i]).contains(d) by {
            if s.last() != c && i == init.len() - 1 {
                assert(!init[i].contains(d));
                assert forall|j: int| 0 <= j < p[i].len() implies p[i][j] != d by {
                    if j < init[i].len() {
                        assert(p[i][j] == init[i][j]);
                    }
                }
            } else if i < init.len() {
                assert(p[i] == init[i]);
            }
        }
    }
}

/// A text without carriage returns has no line that ends in one.
proof fn lemma_plainly_ended(text: Seq<char>, prefix: Seq<char>)
    requires
        !text.contains('\r'),
    ensures
        plainly_ended(lines_of(text), prefix),
{
    lemma_pieces_free(text, '\n', '\r');
    lemma_some_piece(text, '\n');
    let p = pieces(text, '\n');
    let l = lines_of(text);
    assert forall|k: int|
        0 <= k < l.len() && !in_own_section(#[trigger] l.take(k + 1), prefix) implies without_return(
        l[k],
    ) == l[k] by {
        assert(!p[k].contains('\r'));
        assert(without_return(p[k]) == p[k]);
        assert(l[k] == p[k]);
    }
}

/// The lines of lines that were put together and cut at their end.
proof fn lemma_lines_without_feeds(lines: Seq<Seq<char>>)
    requires
        single(lines),
        forall|i: int| 0 <= i < lines.len() ==> without_return(#[trigger] lines[i]) == lines[i],
    ensures
        lines_of(without_feeds(unlines(lines))) == without_empty_end(lines),
    decreases lines.len(),
{
    reveal_strlit("\n");
    let text = unlines(lines);
    if lines.len() == 0 {
        assert(pieces(text, '\n').drop_last() =~= Seq::<Seq<char>>::empty());
        assert(lines_of(text) =~= lines);
    } else {
        let init = lines.drop_last();
        let last = lines[lines.len() - 1];
        assert forall|i: int| 0 <= i < init.len() implies !(#[trigger] init[i]).contains('\n')
            && without_return(init[i]) == init[i] by {
            assert(init[i] == lines[i]);
        }
        let front = unlines(init) + last;
        assert(text =~= front.push('\n'));
        assert(text.drop_last() =~= front);
        if last.len() == 0 {
            assert(front =~= unlines(init));
            lemma_lines_without_feeds(init);
        } else {
            assert(front.last() == last[last.len() - 1]);
            assert(last.contains(front.last()));
            assert(text.len() > 0 && text.last() == '\n');
            assert(without_feeds(text) == without_feeds(front));
            assert(front.last() != '\n');
            assert(without_feeds(front) == front);
            lemma_pieces_of_unlines(lines);
            assert(text =~= front.push('\n') + Seq::<char>::empty());
            lemma_pieces_add(front, Seq::empty(), '\n');
            let p = pieces(front, '\n');
            assert(p + seq![Seq::<char>::empty()] == lines.push(Seq::empty()));
            assert(p =~= (p + seq![Seq::<char>::empty()]).drop_last());
            assert(lines =~= lines.push(Seq::<char>::empty()).drop_last());
            assert(lines_of(front) =~= lines) by {
                let ended = init.map_values(|line: Seq<char>| without_return(line));
                assert(ended =~= init);
                assert(lines =~= init.push(last));
            }
        }
    }
}

/// What is left without the empty lines at the end is the beginning.
proof fn lemma_empty_end(lines: Seq<Seq<char>>)
    ensures
        without_empty_end(lines).len() <= lines.len(),
        forall|i: int|
            0 <= i < without_empty_end(lines).len() ==> #[trigger] without_empty_end(lines)[i]
                == lines[i],
    decreases lines.len(),
{
    if lines.len() > 0 && lines.last().len() == 0 {
        lemma_empty_end(lines.drop_last());
    }
}

proof fn lemma_no_feed_at_end(s: Seq<char>)
    ensures
        without_feeds(s).len() > 0 ==> without_feeds(s).last() != '\n',
    decreases s.len(),
{
    if s.len() > 0 && s.last() == '\n' {
        lemma_no_feed_at_end(s.drop_last());
    }
}

/// Of a text without carriage returns, removing the sections of the virtual
/// devices leaves the other lines in their order, without the empty ones at the
/// end. None of them begins such a section, and so removing again changes
/// nothing.
pub proof fn law_removing_again_changes_nothing(content: Seq<char>, vendor: u16, product: u16)
    requires
        !content.contains('\r'),
    ensures
        ({
            let prefix = section_prefix(vendor, product);
            let r = without_feeds(foreign_lines(lines_of(content), prefix));
            &&& lines_of(r) == without_empty_end(kept(lines_of(content), prefix))
            &&& r.len() > 0 ==> r.last() != '\n'
            &&& forall|i: int|
                0 <= i < lines_of(r).len() ==> !starts(#[trigger] lines_of(r)[i], prefix)
            &&& without_feeds(foreign_lines(lines_of(r), prefix)) == r
        }),
{
    reveal_strlit("\n");
    let prefix = section_prefix(vendor, product);
    let lines = lines_of(content);
    lemma_plainly_ended(content, prefix);
    lemma_lines_single(content);
    lemma_kept(lines, vendor, product);
    let k = kept(lines, prefix);
    let all = foreign_lines(lines, prefix);
    let r = without_feeds(all);
    lemma_lines_without_feeds(k);
    lemma_empty_end(k);
    lemma_no_feed_at_end(all);
    let l = lines_of(r);
    assert forall|i: int| 0 <= i < l.len() implies !starts(#[trigger] l[i], prefix) by {
        assert(l[i] == k[i]);
    }
    lemma_all_foreign(l, prefix);
    let p = pieces(r, '\n');
    lemma_some_piece(r, '\n');
    lemma_unlines_of_pieces(r);
    if r.len() == 0 {
        assert(r =~= Seq::<char>::empty());
        assert(p.drop_last() =~= Seq::<Seq<char>>::empty());
        assert(l =~= Seq::<Seq<char>>::empty());
    } else {
        assert(p.last().len() > 0);
        lemma_pieces_of_unlines(k);
        lemma_pieces_without_feeds(all);
        assert(l =~= p) by {
            assert(l.len() == p.len());
            assert forall|i: int| 0 <= i < l.len() implies l[i] == p[i] by {
                assert(p[i] == k.push(Seq::empty())[i]);
                assert(l[i] == k[i]);
            }
        }
        assert(r + "\n"@ =~= r.push('\n'));
        assert(r.push('\n').drop_last() =~= r);
        assert(without_feeds(r.push('\n')) == without_feeds(r));
    }
}

// ── What is written ──────────────────────────────────────────────────────────

/// A pad's section says, below its heading, every setting by its name: switches
/// as `true` and `false`, the flat profile as 2 and the adaptive one as 1.
pub proof fn law_pad_sections_say_their_settings(
    vendor: u16,
    product: u16,
    name: Seq<char>,
    c: PadKdeConfig,
)
    ensures
        pad_section(vendor, product, name, c) == "\n"@ + ("[Libinput]["@ + decimal(vendor as nat)
            + "]["@ + decimal(product as nat) + "]["@) + name + "]\n"@ + ("DisableWhileTyping"@
            + "="@ + (if c.disable_while_typing {
            "true"@
        } else {
            "false"@
        }) + "\n"@) + ("NaturalScroll"@ + "="@ + (if c.natural_scroll {
            "true"@
        } else {
            "false"@
        }) + "\n"@) + ("PointerAcceleration"@ + "="@ + c.pointer_acceleration@ + "\n"@) + (
        "PointerAccelerationProfile"@ + "="@ + (match c.pointer_acceleration_profile {
            AccelerationProfile::Flat => decimal(2),
            AccelerationProfile::Adaptive => decimal(1),
        }) + "\n"@) + ("TapToClick"@ + "="@ + (if c.tap_to_click {
            "true"@
        } else {
            "false"@
        }) + "\n"@),
{
}

/// The section of the gesture device says its settings in the same way.
pub proof fn law_gesture_section_says_its_settings(
    vendor: u16,
    product: u16,
    c: GestureKdeConfig,
)
    ensures
        gesture_section(vendor, product, c) == "\n"@ + ("[Libinput]["@ + decimal(vendor as nat)
            + "]["@ + decimal(product as nat) + "]["@) + "Deckery Combined Trackpad"@ + "]\n"@ + (
        "DisableWhileTyping"@ + "="@ + (if c.disable_while_typing {
            "true"@
        } else {
            "false"@
        }) + "\n"@) + ("NaturalScroll"@ + "="@ + (if c.natural_scroll {
            "true"@
        } else {
            "false"@
        }) + "\n"@) + ("PointerAccelerationProfile"@ + "="@ + (
        match c.pointer_acceleration_profile {
            AccelerationProfile::Flat => decimal(2),
            AccelerationProfile::Adaptive => decimal(1),
        }) + "\n"@) + ("ScrollFactor"@ + "="@ + c.scroll_factor@ + "\n"@) + ("TapToClick"@ + "="@
            + (if c.tap_to_click {
            "true"@
        } else {
            "false"@
        }) + "\n"@),
{
}

/// A heading says whose the lines below it are, up to the next heading: those
/// of the virtual devices are left out, and every other line is kept as it
/// stands.
pub proof fn law_other_sections_are_kept(lines: Seq<Seq<char>>, line: Seq<char>, prefix: Seq<char>)
    ensures
        ({
            let own = if line.len() > 0 && line[0] == '[' {
                starts(line, prefix)
            } else {
                in_own_section(lines, prefix)
            };
            &&& in_own_section(lines.push(line), prefix) == own
            &&& own ==> foreign_lines(lines.push(line), prefix) == foreign_lines(lines, prefix)
            &&& !own ==> foreign_lines(lines.push(line), prefix) == foreign_lines(lines, prefix)
                + line + seq!['\n']
        }),
        !in_own_section(Seq::empty(), prefix),
        foreign_lines(Seq::empty(), prefix) == Seq::<char>::empty(),
{
    reveal_strlit("[");
    reveal_strlit("\n");
    assert("\n"@ =~= seq!['\n']);
    assert(lines.push(line).drop_last() =~= lines);
    assert(lines.push(line).last() == line);
    if line.len() > 0 {
        if line[0] == '[' {
            assert(line.take(1) =~= "["@);
        } else if starts(line, "["@) {
            assert(line.take(1)[0] == line[0]);
            assert("["@[0] == '[');
        }
    }
}

/// What is written ends with the sections of both pads and of the gesture
/// device, the left pad's first.
pub proof fn law_all_three_sections_are_written(
    content: Seq<char>,
    vendor: u16,
    product: u16,
    left: PadKdeConfig,
    right: PadKdeConfig,
    gesture: GestureKdeConfig,
)
    ensures
        ends(
            with_defaults(content, vendor, product, left, right, gesture),
            pad_section(vendor, product, "Deckery Left Trackpad"@, left) + pad_section(
                vendor,
                product,
                "Deckery Right Trackpad"@,
                right,
            ) + gesture_section(vendor, product, gesture) + seq!['\n'],
        ),
{
    reveal_strlit("\n");
    assert("\n"@ =~= seq!['\n']);
    let all = with_defaults(content, vendor, product, left, right, gesture);
    let tail = pad_section(vendor, product, "Deckery Left Trackpad"@, left) + pad_section(
        vendor,
        product,
        "Deckery Right Trackpad"@,
        right,
    ) + gesture_section(vendor, product, gesture) + seq!['\n'];
    let kept_text = without_feeds(
        foreign_lines(lines_of(content), section_prefix(vendor, product)),
    );
    assert(all =~= kept_text + tail);
    assert(all.skip(all.len() - tail.len()) =~= tail);
}

} // verus!
