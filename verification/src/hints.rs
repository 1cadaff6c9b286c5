//! Hints: display labels for shortcuts, put on the buttons that send the keys.
//!
//! A hint is written as the shortcut that an application listens for, such as
//! `KEY_LEFTCTRL-KEY_UP`. Which buttons that is depends on the merged bindings,
//! so hints are resolved after every merge.

use crate::config::{BindingsView, Bindings, ComboTable, ComboView, Config, Hint};
use crate::event::{
    copy_list, event_from_name, event_of_name, canonical, canonical_list, Combo, Event, Key,
};
use crate::desktop_defaults::lemma_one_piece;
use crate::keyed::KeyedList;
use crate::order::{ascending, arrange, lemma_arrange, lemma_ascending_unique, put_in_place, views};
use crate::text::{
    cut_last, decimal, joined, lemma_cut_last, number_text, pieces, split_at_last, split_text,
    starts, starts_with,
};
use vstd::prelude::*;

verus! {

/// The text that `Debug` writes for a text: quoted, with escapes.
pub uninterp spec fn quoted(s: Seq<char>) -> Seq<char>;

/// Formats a text with the `Debug` of `str`: in double quotes, with the escapes
/// that std chooses. The result is named, not described.
#[verifier::external_body]
pub(crate) fn quoted_text(s: &str) -> (r: String)
    ensures
        r@ == quoted(s@),
{
    format!("{:?}", s)
}

// ── Emitters ─────────────────────────────────────────────────────────────────

/// Whether the button `t` sends `k` when pressed on its own.
pub open spec fn emits(remap: Map<ComboView, Seq<Key>>, t: Event, k: Key) -> bool {
    remap.contains_key((t, Seq::empty())) && remap[(t, Seq::empty())].contains(k)
}

/// Whether `s` lists the buttons that send `k`, in ascending order.
pub open spec fn lists_emitters(s: Seq<Event>, remap: Map<ComboView, Seq<Key>>, k: Key) -> bool {
    ascending::<Event>(s) && forall|t: Event| #[trigger] s.contains(t) <==> emits(remap, t, k)
}

/// The buttons that send `k`, in ascending order.
pub open spec fn emitters(remap: Map<ComboView, Seq<Key>>, k: Key) -> Seq<Event> {
    choose|s: Seq<Event>| lists_emitters(s, remap, k)
}

fn has_key(keys: &Vec<Key>, k: Key) -> (r: bool)
    ensures
        r == keys@.contains(k),
{
    let mut i: usize = 0;
    while i < keys.len()
        invariant
            i <= keys@.len(),
            forall|j: int| 0 <= j < i ==> #[trigger] keys@[j] != k,
        decreases keys@.len() - i,
    {
        if keys[i] == k {
            return true;
        }
        i = i + 1;
    }
    false
}

/// The buttons that send `k`, in ascending order.
pub fn emitters_of(remap: &ComboTable<Vec<Key>>, k: Key) -> (r: Vec<Event>)
    ensures
        lists_emitters(r@, remap@, k),
        r@ == emitters(remap@, k),
{
    let mut found: Vec<Event> = Vec::new();
    let n: usize = remap.len();
    let ghost items = remap.items();
    let mut i: usize = 0;
    while i < n
        invariant
            i <= n == items.len(),
            items == remap.items(),
            forall|t: Event| #[trigger]
                found@.contains(t) <==> exists|j: int|
                    0 <= j < i && (#[trigger] items[j]).0 == (t, Seq::<Event>::empty())
                        && items[j].1.contains(k),
        decreases n - i,
    {
        let combo = remap.key_at(i);
        let ghost before = found@;
        if combo.held.len() == 0 && has_key(remap.value_at(i), k) {
            found.push(combo.trigger);
            proof {
                assert(combo.held@ =~= Seq::<Event>::empty());
                assert forall|t: Event| #[trigger] found@.contains(t) <==> exists|j: int|
                    0 <= j < i + 1 && (#[trigger] items[j]).0 == (t, Seq::<Event>::empty())
                        && items[j].1.contains(k) by {
                    assert(found@[before.len() as int] == combo.trigger);
                    if found@.contains(t) {
                        let a = choose|a: int| 0 <= a < found@.len() && found@[a] == t;
                        if a < before.len() {
                            assert(before[a] == t);
                            assert(before.contains(t));
                        } else {
                            assert(items[i as int].0 == (t, Seq::<Event>::empty()));
                        }
                    }
                    if exists|j: int|
                        0 <= j < i + 1 && (#[trigger] items[j]).0 == (t, Seq::<Event>::empty())
                            && items[j].1.contains(k) {
                        let j = choose|j: int|
                            0 <= j < i + 1 && (#[trigger] items[j]).0 == (
                                t,
                                Seq::<Event>::empty(),
                            ) && items[j].1.contains(k);
                        if j < i {
                            assert(before.contains(t));
                            let a = choose|a: int| 0 <= a < before.len() && before[a] == t;
                            assert(found@[a] == t);
                        }
                    }
                }
            }
        }
        i = i + 1;
    }
    let r: Vec<Event> = canonical_list(&found);
    proof {
        remap.lemma_items();
        lemma_arrange::<Event>(found@);
        let m = remap@;
        assert forall|t: Event| #[trigger] r@.contains(t) <==> emits(m, t, k) by {
            let c = (t, Seq::<Event>::empty());
            if found@.contains(t) {
                let j = choose|j: int|
                    0 <= j < n && (#[trigger] items[j]).0 == c && items[j].1.contains(k);
                assert(m.contains_key(items[j].0));
            }
            if emits(m, t, k) {
                let j = choose|j: int| 0 <= j < items.len() && (#[trigger] items[j]).0 == c;
                assert(m[items[j].0] == items[j].1);
            }
        }
        let e = emitters(m, k);
        assert(lists_emitters(r@, m, k));
        assert forall|t: Event| #[trigger] r@.contains(t) <==> e.contains(t) by {
            assert(e.contains(t) <==> emits(m, t, k));
        }
        lemma_ascending_unique::<Event>(r@, e);
    }
    r
}

// ── Segments ─────────────────────────────────────────────────────────────────

/// What a segment of a hint stands for: the buttons that send its key, or why
/// there are none.
pub open spec fn segment(remap: Map<ComboView, Seq<Key>>, seg: Seq<char>) -> Result<
    Seq<Event>,
    Seq<char>,
> {
    if !starts(seg, "KEY_"@) {
        Err(quoted(seg) + " is not a key name — hints are written in output space (KEY_*)"@)
    } else {
        match event_of_name(seg) {
            Some(Event::Key(k)) => if emitters(remap, k).len() > 0 {
                Ok(emitters(remap, k))
            } else {
                Err("no button emits "@ + quoted(seg))
            },
            _ => Err(quoted(seg) + " is not a known key"@),
        }
    }
}

fn resolve_segment(remap: &ComboTable<Vec<Key>>, seg: &str) -> (r: Result<Vec<Event>, String>)
    ensures
        match r {
            Ok(v) => segment(remap@, seg@) == Ok::<Seq<Event>, Seq<char>>(v@),
            Err(e) => segment(remap@, seg@) == Err::<Seq<Event>, Seq<char>>(e@),
        },
{
    if !starts_with(seg, "KEY_") {
        return Err(
            joined(
                quoted_text(seg).as_str(),
                " is not a key name — hints are written in output space (KEY_*)",
            ),
        );
    }
    match event_from_name(seg) {
        Some(Event::Key(k)) => {
            let v: Vec<Event> = emitters_of(remap, k);
            if v.len() > 0 {
                Ok(v)
            } else {
                Err(joined("no button emits ", quoted_text(seg).as_str()))
            }
        },
        _ => Err(joined(quoted_text(seg).as_str(), " is not a known key")),
    }
}

/// The members of a list that are not empty.
pub open spec fn nonempty(s: Seq<Seq<char>>) -> Seq<Seq<char>>
    decreases s.len(),
{
    if s.len() == 0 {
        Seq::empty()
    } else if s.last().len() == 0 {
        nonempty(s.drop_last())
    } else {
        nonempty(s.drop_last()).push(s.last())
    }
}

/// The segments of `s` between the occurrences of `c`, without empty ones.
pub fn nonempty_pieces(s: &str, c: char) -> (r: Vec<String>)
    ensures
        views(r@) == nonempty(pieces(s@, c)),
{
    let all: Vec<String> = split_text(s, c);
    let mut r: Vec<String> = Vec::new();
    let mut i: usize = 0;
    assert(views(all@).take(0) =~= Seq::<Seq<char>>::empty());
    assert(views(r@) =~= Seq::<Seq<char>>::empty());
    while i < all.len()
        invariant
            i <= all@.len(),
            views(r@) == nonempty(views(all@).take(i as int)),
        decreases all@.len() - i,
    {
        let ghost before = views(r@);
        if !all[i].as_str().is_empty() {
            r.push(all[i].clone());
            assert(views(r@) =~= before.push(all@[i as int]@));
        }
        i = i + 1;
        proof {
            let t = views(all@).take(i as int);
            assert(t.drop_last() =~= views(all@).take(i - 1));
            assert(t.last() == all@[i - 1]@);
        }
    }
    assert(views(all@).take(i as int) =~= views(all@));
    r
}

// ── Combinations ─────────────────────────────────────────────────────────────

/// Every prefix continued by every candidate, prefix by prefix.
pub open spec fn extended(prefixes: Seq<Seq<Event>>, cands: Seq<Event>) -> Seq<Seq<Event>>
    decreases prefixes.len(),
{
    if prefixes.len() == 0 {
        Seq::empty()
    } else {
        extended(prefixes.drop_last(), cands) + Seq::new(
            cands.len(),
            |j: int| prefixes.last().push(cands[j]),
        )
    }
}

/// The views of a list of lists of events.
pub open spec fn rows(v: Seq<Vec<Event>>) -> Seq<Seq<Event>> {
    Seq::new(v.len(), |i: int| v[i]@)
}

fn extend_all(prefixes: &Vec<Vec<Event>>, cands: &Vec<Event>) -> (r: Vec<Vec<Event>>)
    ensures
        rows(r@) == extended(rows(prefixes@), cands@),
{
    let mut r: Vec<Vec<Event>> = Vec::new();
    let mut i: usize = 0;
    assert(rows(prefixes@).take(0) =~= Seq::<Seq<Event>>::empty());
    assert(rows(r@) =~= Seq::<Seq<Event>>::empty());
    while i < prefixes.len()
        invariant
            i <= prefixes@.len(),
            rows(r@) == extended(rows(prefixes@).take(i as int), cands@),
        decreases prefixes@.len() - i,
    {
        let ghost before = rows(r@);
        let ghost p = prefixes@[i as int]@;
        let mut j: usize = 0;
        assert(before + Seq::new(0, |a: int| p.push(cands@[a])) =~= before);
        while j < cands.len()
            invariant
                i < prefixes@.len(),
                p == prefixes@[i as int]@,
                j <= cands@.len(),
                rows(r@) == before + Seq::new(j as nat, |a: int| p.push(cands@[a])),
            decreases cands@.len() - j,
        {
            let mut next: Vec<Event> = copy_list(&prefixes[i]);
            next.push(cands[j]);
            let ghost had = rows(r@);
            r.push(next);
            j = j + 1;
            proof {
                assert(rows(r@) =~= had.push(p.push(cands@[j - 1])));
                assert(before + Seq::new(j as nat, |a: int| p.push(cands@[a])) =~= (before
                    + Seq::new((j - 1) as nat, |a: int| p.push(cands@[a]))).push(
                    p.push(cands@[j - 1]),
                ));
            }
        }
        i = i + 1;
        proof {
            let t = rows(prefixes@).take(i as int);
            assert(t.drop_last() =~= rows(prefixes@).take(i - 1));
            assert(t.last() == p);
            assert(Seq::new(cands@.len(), |a: int| p.push(cands@[a])) =~= Seq::new(
                cands@.len(),
                |a: int| t.last().push(cands@[a]),
            ));
        }
    }
    assert(rows(prefixes@).take(i as int) =~= rows(prefixes@));
    r
}

/// What is said of a hint that no button can show.
pub open spec fn dead_warning(raw: Seq<char>, why: Seq<char>) -> Seq<char> {
    "hint "@ + quoted(raw) + ": "@ + why + " — hint can never be shown"@
}

/// What is said of a segment that several buttons send.
pub open spec fn ambiguity_warning(raw: Seq<char>, seg: Seq<char>, n: nat) -> Seq<char> {
    "hint "@ + quoted(raw) + ": "@ + quoted(seg) + " maps to "@ + decimal(n)
        + " buttons — shown on all of them"@
}

/// What is said of a hint whose button another hint has.
pub open spec fn collision_warning(raw: Seq<char>, owner: Seq<char>) -> Seq<char> {
    "hint "@ + quoted(raw) + ": resolves to the same button as "@ + quoted(owner) + " — only "@
        + quoted(owner) + " is shown"@
}

/// What is said of a hint that no button can show, given in quotes.
pub fn dead_message(hint: &str, why: &str) -> (r: String)
    ensures
        r@ == "hint "@ + hint@ + ": "@ + why@ + " — hint can never be shown"@,
{
    let mut r: String = joined("hint ", hint);
    r.append(": ");
    r.append(why);
    r.append(" — hint can never be shown");
    r
}

/// What is said of a segment that several buttons send, given in quotes with
/// its hint.
pub fn ambiguity_message(hint: &str, seg: &str, n: usize) -> (r: String)
    ensures
        r@ == "hint "@ + hint@ + ": "@ + seg@ + " maps to "@ + decimal(n as nat)
            + " buttons — shown on all of them"@,
{
    let mut r: String = joined("hint ", hint);
    r.append(": ");
    r.append(seg);
    r.append(" maps to ");
    r.append(number_text(n as u64).as_str());
    r.append(" buttons — shown on all of them");
    r
}

/// What is said of a hint whose button another hint has, both in quotes.
pub fn collision_message(hint: &str, owner: &str) -> (r: String)
    ensures
        r@ == "hint "@ + hint@ + ": resolves to the same button as "@ + owner@ + " — only "@
            + owner@ + " is shown"@,
{
    let mut r: String = joined("hint ", hint);
    r.append(": resolves to the same button as ");
    r.append(owner);
    r.append(" — only ");
    r.append(owner);
    r.append(" is shown");
    r
}

fn dead_text(raw: &str, why: &str) -> (r: String)
    ensures
        r@ == dead_warning(raw@, why@),
{
    dead_message(quoted_text(raw).as_str(), why)
}

fn ambiguity_text(raw: &str, seg: &str, n: usize) -> (r: String)
    ensures
        r@ == ambiguity_warning(raw@, seg@, n as nat),
{
    ambiguity_message(quoted_text(raw).as_str(), quoted_text(seg).as_str(), n)
}

fn collision_text(raw: &str, owner: &str) -> (r: String)
    ensures
        r@ == collision_warning(raw@, owner@),
{
    collision_message(quoted_text(raw).as_str(), quoted_text(owner).as_str())
}

/// How far the modifier side of a hint has been resolved.
#[verifier::ext_equal]
pub struct ModifierSide {
    /// The combinations that the segments so far can stand for.
    pub combos: Seq<Seq<Event>>,
    pub warnings: Seq<Seq<char>>,
    /// Whether a segment stands for nothing.
    pub dead: bool,
}

/// What the modifier segments of the hint `raw` stand for.
pub open spec fn modifier_side(
    remap: Map<ComboView, Seq<Key>>,
    raw: Seq<char>,
    segs: Seq<Seq<char>>,
) -> ModifierSide
    decreases segs.len(),
{
    if segs.len() == 0 {
        ModifierSide { combos: seq![Seq::empty()], warnings: Seq::empty(), dead: false }
    } else {
        let before = modifier_side(remap, raw, segs.drop_last());
        if before.dead {
            before
        } else {
            match segment(remap, segs.last()) {
                Err(why) => ModifierSide {
                    combos: before.combos,
                    warnings: before.warnings.push(dead_warning(raw, why)),
                    dead: true,
                },
                Ok(cands) => ModifierSide {
                    combos: extended(before.combos, cands),
                    warnings: if cands.len() > 1 {
                        before.warnings.push(ambiguity_warning(raw, segs.last(), cands.len()))
                    } else {
                        before.warnings
                    },
                    dead: false,
                },
            }
        }
    }
}

proof fn lemma_modifier_side_stays_dead(
    remap: Map<ComboView, Seq<Key>>,
    raw: Seq<char>,
    segs: Seq<Seq<char>>,
    i: int,
)
    requires
        0 <= i <= segs.len(),
        modifier_side(remap, raw, segs.take(i)).dead,
    ensures
        modifier_side(remap, raw, segs) == modifier_side(remap, raw, segs.take(i)),
    decreases segs.len() - i,
{
    if i < segs.len() {
        assert(segs.take(i + 1).drop_last() =~= segs.take(i));
        lemma_modifier_side_stays_dead(remap, raw, segs, i + 1);
    } else {
        assert(segs.take(i) =~= segs);
    }
}

/// The modifier side of a hint: its combinations, or nothing where a segment
/// stands for nothing. Warnings are added to `warnings`.
fn resolve_modifiers(
    remap: &ComboTable<Vec<Key>>,
    raw: &str,
    segs: &Vec<String>,
    warnings: &mut Vec<String>,
) -> (r: Option<Vec<Vec<Event>>>)
    ensures
        ({
            let side = modifier_side(remap@, raw@, views(segs@));
            &&& views(final(warnings)@) == views(old(warnings)@) + side.warnings
            &&& side.dead <==> r is None
            &&& r matches Some(v) ==> rows(v@) == side.combos
        }),
{
    let mut combos: Vec<Vec<Event>> = Vec::new();
    combos.push(Vec::new());
    let mut i: usize = 0;
    let ghost w0 = views(warnings@);
    proof {
        assert(views(segs@).take(0) =~= Seq::<Seq<char>>::empty());
        assert(combos@[0]@ =~= Seq::<Event>::empty());
        assert(rows(combos@) =~= seq![Seq::<Event>::empty()]);
        assert(w0 + Seq::<Seq<char>>::empty() =~= w0);
    }
    while i < segs.len()
        invariant
            i <= segs@.len(),
            w0 == views(old(warnings)@),
            !modifier_side(remap@, raw@, views(segs@).take(i as int)).dead,
            rows(combos@) == modifier_side(remap@, raw@, views(segs@).take(i as int)).combos,
            views(warnings@) == w0 + modifier_side(
                remap@,
                raw@,
                views(segs@).take(i as int),
            ).warnings,
        decreases segs@.len() - i,
    {
        let seg: &str = segs[i].as_str();
        let ghost t = views(segs@).take(i + 1);
        let ghost had = views(warnings@);
        let ghost hadw = modifier_side(remap@, raw@, views(segs@).take(i as int)).warnings;
        proof {
            assert(t.drop_last() =~= views(segs@).take(i as int));
            assert(t.last() == seg@);
        }
        match resolve_segment(remap, seg) {
            Err(why) => {
                let text: String = dead_text(raw, why.as_str());
                let ghost line = text@;
                warnings.push(text);
                proof {
                    assert(views(warnings@) =~= had.push(line));
                    assert((w0 + hadw).push(line) =~= w0 + hadw.push(line));
                    lemma_modifier_side_stays_dead(remap@, raw@, views(segs@), i + 1);
                }
                return None;
            },
            Ok(cands) => {
                if cands.len() > 1 {
                    let text: String = ambiguity_text(raw, seg, cands.len());
                    let ghost line = text@;
                    warnings.push(text);
                    proof {
                        assert(views(warnings@) =~= had.push(line));
                        assert((w0 + hadw).push(line) =~= w0 + hadw.push(line));
                    }
                }
                combos = extend_all(&combos, &cands);
            },
        }
        i = i + 1;
    }
    assert(views(segs@).take(i as int) =~= views(segs@));
    Some(combos)
}

// ── Claiming buttons ─────────────────────────────────────────────────────────

/// The state of a run over the hints.
#[verifier::ext_equal]
pub struct HintRun {
    pub resolved: Map<ComboView, (Seq<char>, bool)>,
    /// Which line each resolved combo belongs to.
    pub claimed_by: Map<ComboView, Seq<char>>,
    pub warnings: Seq<Seq<char>>,
}

/// Whether a combo has something that a hint must not cover: for a plain button
/// a label of its own, for a combo any binding.
pub open spec fn taken(b: BindingsView, c: ComboView) -> bool {
    if c.1.len() == 0 {
        b.labels.contains_key(c)
    } else {
        b.remap.contains_key(c) || b.commands.contains_key(c) || b.movements.contains_key(c)
    }
}

/// The run after the line `raw` has asked for the combo `c`.
pub open spec fn claim(
    b: BindingsView,
    run: HintRun,
    raw: Seq<char>,
    hint: (Seq<char>, bool),
    c: ComboView,
) -> HintRun {
    if taken(b, c) {
        run
    } else if run.claimed_by.contains_key(c) && run.claimed_by[c] != raw {
        HintRun {
            warnings: run.warnings.push(collision_warning(raw, run.claimed_by[c])),
            ..run
        }
    } else {
        HintRun {
            resolved: run.resolved.insert(c, hint),
            claimed_by: run.claimed_by.insert(c, raw),
            ..run
        }
    }
}

/// The run after `raw` has asked for `held` with each of `triggers`.
pub open spec fn claim_triggers(
    b: BindingsView,
    run: HintRun,
    raw: Seq<char>,
    hint: (Seq<char>, bool),
    held: Seq<Event>,
    triggers: Seq<Event>,
) -> HintRun
    decreases triggers.len(),
{
    if triggers.len() == 0 {
        run
    } else {
        claim(
            b,
            claim_triggers(b, run, raw, hint, held, triggers.drop_last()),
            raw,
            hint,
            (triggers.last(), held),
        )
    }
}

/// The run after `raw` has asked for each of `combos` with each of `triggers`.
pub open spec fn claim_combos(
    b: BindingsView,
    run: HintRun,
    raw: Seq<char>,
    hint: (Seq<char>, bool),
    combos: Seq<Seq<Event>>,
    triggers: Seq<Event>,
) -> HintRun
    decreases combos.len(),
{
    if combos.len() == 0 {
        run
    } else {
        claim_triggers(
            b,
            claim_combos(b, run, raw, hint, combos.drop_last(), triggers),
            raw,
            hint,
            canonical(combos.last()),
            triggers,
        )
    }
}

/// The modifier part and the trigger part of a hint.
pub open spec fn hint_parts(raw: Seq<char>) -> (Seq<char>, Seq<char>) {
    match cut_last(raw, '-') {
        Some(parts) => parts,
        None => (Seq::empty(), raw),
    }
}

/// The run after the line `raw`.
pub open spec fn hint_line(
    b: BindingsView,
    own: Option<BindingsView>,
    run: HintRun,
    raw: Seq<char>,
) -> HintRun {
    let (mods, trigger) = hint_parts(raw);
    let side = modifier_side(b.remap, raw, nonempty(pieces(mods, '-')));
    let from_override = own matches Some(o) && o.hints.contains_key(raw);
    let with_side = HintRun { warnings: run.warnings + side.warnings, ..run };
    if side.dead {
        with_side
    } else {
        match segment(b.remap, trigger) {
            Err(why) => HintRun {
                warnings: with_side.warnings.push(dead_warning(raw, why)),
                ..run
            },
            Ok(triggers) => {
                let told = HintRun {
                    warnings: if triggers.len() > 1 {
                        with_side.warnings.push(ambiguity_warning(raw, trigger, triggers.len()))
                    } else {
                        with_side.warnings
                    },
                    ..run
                };
                claim_combos(b, told, raw, (b.hints[raw], from_override), side.combos, triggers)
            },
        }
    }
}

/// The run over the lines `lines`, in this order.
pub open spec fn hint_lines(
    b: BindingsView,
    own: Option<BindingsView>,
    lines: Seq<Seq<char>>,
) -> HintRun
    decreases lines.len(),
{
    if lines.len() == 0 {
        HintRun { resolved: Map::empty(), claimed_by: Map::empty(), warnings: Seq::empty() }
    } else {
        hint_line(b, own, hint_lines(b, own, lines.drop_last()), lines.last())
    }
}

/// Whether `s` lists the written hints in ascending order.
pub open spec fn lists_hints(s: Seq<Seq<char>>, hints: Map<Seq<char>, Seq<char>>) -> bool {
    ascending::<String>(s) && forall|x: Seq<char>| #[trigger]
        s.contains(x) <==> hints.contains_key(x)
}

/// The written hints in ascending order.
pub open spec fn hint_order(hints: Map<Seq<char>, Seq<char>>) -> Seq<Seq<char>> {
    choose|s: Seq<Seq<char>>| lists_hints(s, hints)
}

/// What resolving the hints of `b` gives, where `own` are the bindings that an
/// application's configuration brought along.
pub open spec fn resolved_hints(b: BindingsView, own: Option<BindingsView>) -> HintRun {
    hint_lines(b, own, hint_order(b.hints))
}

/// The names of the entries of a table in ascending order.
pub fn sorted_names<V: crate::keyed::Replicate>(t: &KeyedList<String, V>) -> (r: Vec<String>)
    ensures
        ascending::<String>(views(r@)),
        forall|x: Seq<char>| #[trigger] views(r@).contains(x) <==> t@.contains_key(x),
{
    let mut r: Vec<String> = Vec::new();
    let n: usize = t.len();
    let ghost items = t.items();
    let ghost names = Seq::new(items.len(), |i: int| items[i].0);
    let mut i: usize = 0;
    assert(names.take(0) =~= Seq::<Seq<char>>::empty());
    assert(views(r@) =~= Seq::<Seq<char>>::empty());
    while i < n
        invariant
            i <= n == items.len(),
            items == t.items(),
            names == Seq::new(items.len(), |j: int| items[j].0),
            views(r@) == arrange::<String>(names.take(i as int)),
        decreases n - i,
    {
        put_in_place(&mut r, t.key_at(i).clone());
        i = i + 1;
        proof {
            assert(names.take(i as int).drop_last() =~= names.take(i - 1));
            assert(names.take(i as int).last() == items[i - 1].0);
        }
    }
    proof {
        assert(names.take(n as int) =~= names);
        lemma_arrange::<String>(names);
        t.lemma_items();
        assert forall|x: Seq<char>| #[trigger] views(r@).contains(x) <==> t@.contains_key(x) by {
            if names.contains(x) {
                let j = choose|j: int| 0 <= j < names.len() && names[j] == x;
                assert(t@.contains_key(items[j].0));
            }
            if t@.contains_key(x) {
                let j = choose|j: int| 0 <= j < items.len() && (#[trigger] items[j]).0 == x;
                assert(names[j] == x);
            }
        }
    }
    r
}

fn is_taken(b: &Bindings, c: &Combo) -> (r: bool)
    ensures
        r == taken(b@, c@),
{
    if c.held.len() == 0 {
        b.labels.contains_key(c)
    } else {
        b.remap.contains_key(c) || b.commands.contains_key(c) || b.movements.contains_key(c)
    }
}

/// The executable counterpart of a run.
struct Run {
    resolved: ComboTable<Hint>,
    claimed_by: ComboTable<String>,
    warnings: Vec<String>,
}

impl View for Run {
    type V = HintRun;

    closed spec fn view(&self) -> HintRun {
        HintRun {
            resolved: self.resolved@,
            claimed_by: self.claimed_by@,
            warnings: views(self.warnings@),
        }
    }
}

impl Run {
    fn claim(&mut self, b: &Bindings, raw: &String, label: &String, from_override: bool, c: Combo)
        ensures
            final(self)@ == claim(b@, old(self)@, raw@, (label@, from_override), c@),
    {
        if is_taken(b, &c) {
            return;
        }
        let ghost had = views(self.warnings@);
        let mut other: Option<String> = None;
        if let Some(owner) = self.claimed_by.get(&c) {
            if *owner != *raw {
                other = Some(owner.clone());
            }
        }
        if let Some(owner) = other {
            let text: String = collision_text(raw.as_str(), owner.as_str());
            self.warnings.push(text);
            assert(views(self.warnings@) =~= had.push(text@));
            return;
        }
        let ghost cv = c@;
        let copy = Combo { trigger: c.trigger, held: copy_list(&c.held) };
        self.claimed_by.insert(copy, raw.clone());
        self.resolved.insert(c, Hint { label: label.clone(), from_override });
        assert(self@ =~= claim(b@, old(self)@, raw@, (label@, from_override), cv));
    }

    fn claim_triggers(
        &mut self,
        b: &Bindings,
        raw: &String,
        label: &String,
        from_override: bool,
        held: &Vec<Event>,
        triggers: &Vec<Event>,
    )
        ensures
            final(self)@ == claim_triggers(
                b@,
                old(self)@,
                raw@,
                (label@, from_override),
                held@,
                triggers@,
            ),
    {
        let mut i: usize = 0;
        assert(triggers@.take(0) =~= Seq::<Event>::empty());
        while i < triggers.len()
            invariant
                i <= triggers@.len(),
                self@ == claim_triggers(
                    b@,
                    old(self)@,
                    raw@,
                    (label@, from_override),
                    held@,
                    triggers@.take(i as int),
                ),
            decreases triggers@.len() - i,
        {
            self.claim(b, raw, label, from_override, Combo::of(triggers[i], held));
            i = i + 1;
            proof {
                assert(triggers@.take(i as int).drop_last() =~= triggers@.take(i - 1));
                assert(triggers@.take(i as int).last() == triggers@[i - 1]);
            }
        }
        assert(triggers@.take(i as int) =~= triggers@);
    }

    fn claim_combos(
        &mut self,
        b: &Bindings,
        raw: &String,
        label: &String,
        from_override: bool,
        combos: &Vec<Vec<Event>>,
        triggers: &Vec<Event>,
    )
        ensures
            final(self)@ == claim_combos(
                b@,
                old(self)@,
                raw@,
                (label@, from_override),
                rows(combos@),
                triggers@,
            ),
    {
        let mut i: usize = 0;
        assert(rows(combos@).take(0) =~= Seq::<Seq<Event>>::empty());
        while i < combos.len()
            invariant
                i <= combos@.len(),
                self@ == claim_combos(
                    b@,
                    old(self)@,
                    raw@,
                    (label@, from_override),
                    rows(combos@).take(i as int),
                    triggers@,
                ),
            decreases combos@.len() - i,
        {
            let held: Vec<Event> = canonical_list(&combos[i]);
            self.claim_triggers(b, raw, label, from_override, &held, triggers);
            i = i + 1;
            proof {
                let t = rows(combos@).take(i as int);
                assert(t.drop_last() =~= rows(combos@).take(i - 1));
                assert(t.last() == combos@[i - 1]@);
            }
        }
        assert(rows(combos@).take(i as int) =~= rows(combos@));
    }

    fn line(&mut self, b: &Bindings, own: &Option<Bindings>, raw: &String)
        requires
            b@.hints.contains_key(raw@),
        ensures
            final(self)@ == hint_line(
                b@,
                match *own {
                    Some(o) => Some(o@),
                    None => None,
                },
                old(self)@,
                raw@,
            ),
    {
        let ghost w0 = views(self.warnings@);
        let (mods, trigger): (String, String) = match split_at_last(raw.as_str(), '-') {
            Some(parts) => parts,
            None => (String::new(), raw.clone()),
        };
        let from_override: bool = match own {
            Some(o) => o.hints.contains_key(raw),
            None => false,
        };
        let label: String = match b.hints.get(raw) {
            Some(l) => l.clone(),
            None => String::new(),
        };
        let segs: Vec<String> = nonempty_pieces(mods.as_str(), '-');
        let combos: Vec<Vec<Event>> = match resolve_modifiers(
            &b.remap,
            raw.as_str(),
            &segs,
            &mut self.warnings,
        ) {
            Some(v) => v,
            None => {
                return;
            },
        };
        let ghost w1 = views(self.warnings@);
        match resolve_segment(&b.remap, trigger.as_str()) {
            Err(why) => {
                let text: String = dead_text(raw.as_str(), why.as_str());
                self.warnings.push(text);
                assert(views(self.warnings@) =~= w1.push(text@));
            },
            Ok(triggers) => {
                if triggers.len() > 1 {
                    let text: String = ambiguity_text(
                        raw.as_str(),
                        trigger.as_str(),
                        triggers.len(),
                    );
                    self.warnings.push(text);
                    assert(views(self.warnings@) =~= w1.push(text@));
                }
                self.claim_combos(b, raw, &label, from_override, &combos, &triggers);
            },
        }
    }
}

impl Config {
    /// Put the written hints on the buttons that send their keys, and say what
    /// is wrong with those that no button can show. Nothing but the resolved
    /// hints changes.
    pub fn resolve_hints(&mut self) -> (warnings: Vec<String>)
        ensures
            ({
                let run = resolved_hints(old(self)@.bindings, old(self)@.override_bindings);
                &&& views(warnings@) == run.warnings
                &&& final(self).bindings@ == (BindingsView {
                    hints_resolved: run.resolved,
                    ..old(self)@.bindings
                })
            }),
            *final(self) == (Config { bindings: final(self).bindings, ..*old(self) }),
    {
        let lines: Vec<String> = sorted_names(&self.bindings.hints);
        let ghost b = self.bindings@;
        let ghost own = self@.override_bindings;
        proof {
            let s = views(lines@);
            let order = hint_order(b.hints);
            assert(lists_hints(s, b.hints));
            assert forall|x: Seq<char>| #[trigger] s.contains(x) <==> order.contains(x) by {
                assert(order.contains(x) <==> b.hints.contains_key(x));
            }
            lemma_ascending_unique::<String>(s, order);
        }
        let mut run = Run {
            resolved: KeyedList::new(),
            claimed_by: KeyedList::new(),
            warnings: Vec::new(),
        };
        let mut i: usize = 0;
        proof {
            assert(views(lines@).take(0) =~= Seq::<Seq<char>>::empty());
            assert(run@.warnings =~= Seq::<Seq<char>>::empty());
        }
        while i < lines.len()
            invariant
                i <= lines@.len(),
                *self == *old(self),
                b == self.bindings@,
                own == self@.override_bindings,
                forall|x: Seq<char>| #[trigger]
                    views(lines@).contains(x) <==> b.hints.contains_key(x),
                run@ == hint_lines(b, own, views(lines@).take(i as int)),
            decreases lines@.len() - i,
        {
            proof {
                assert(views(lines@)[i as int] == lines@[i as int]@);
                assert(views(lines@).contains(lines@[i as int]@));
            }
            run.line(&self.bindings, &self.override_bindings, &lines[i]);
            i = i + 1;
            proof {
                let t = views(lines@).take(i as int);
                assert(t.drop_last() =~= views(lines@).take(i - 1));
                assert(t.last() == lines@[i - 1]@);
            }
        }
        assert(views(lines@).take(i as int) =~= views(lines@));
        let Run { resolved, claimed_by: _, warnings } = run;
        self.bindings.hints_resolved = resolved;
        warnings
    }
}

// ── Laws ─────────────────────────────────────────────────────────────────────

/// Resolving hints that are resolved already gives the same again: what is on
/// the buttons plays no part in it.
pub proof fn law_resolving_again_changes_nothing(
    b: BindingsView,
    own: Option<BindingsView>,
    resolved: Map<ComboView, (Seq<char>, bool)>,
)
    ensures
        resolved_hints(BindingsView { hints_resolved: resolved, ..b }, own) == resolved_hints(
            b,
            own,
        ),
{
    lemma_lines_ignore_resolved(b, own, resolved, hint_order(b.hints));
}

proof fn lemma_lines_ignore_resolved(
    b: BindingsView,
    own: Option<BindingsView>,
    resolved: Map<ComboView, (Seq<char>, bool)>,
    lines: Seq<Seq<char>>,
)
    ensures
        hint_lines(BindingsView { hints_resolved: resolved, ..b }, own, lines) == hint_lines(
            b,
            own,
            lines,
        ),
    decreases lines.len(),
{
    let b2 = BindingsView { hints_resolved: resolved, ..b };
    if lines.len() > 0 {
        lemma_lines_ignore_resolved(b, own, resolved, lines.drop_last());
        let run = hint_lines(b, own, lines.drop_last());
        let raw = lines.last();
        let (mods, trigger) = hint_parts(raw);
        let side = modifier_side(b.remap, raw, nonempty(pieces(mods, '-')));
        let from_override = own matches Some(o) && o.hints.contains_key(raw);
        let with_side = HintRun { warnings: run.warnings + side.warnings, ..run };
        if !side.dead {
            if let Ok(triggers) = segment(b.remap, trigger) {
                let told = HintRun {
                    warnings: if triggers.len() > 1 {
                        with_side.warnings.push(ambiguity_warning(raw, trigger, triggers.len()))
                    } else {
                        with_side.warnings
                    },
                    ..run
                };
                lemma_combos_ignore_resolved(
                    b,
                    b2,
                    told,
                    raw,
                    (b.hints[raw], from_override),
                    side.combos,
                    triggers,
                );
            }
        }
    }
}

proof fn lemma_combos_ignore_resolved(
    b: BindingsView,
    b2: BindingsView,
    run: HintRun,
    raw: Seq<char>,
    hint: (Seq<char>, bool),
    combos: Seq<Seq<Event>>,
    triggers: Seq<Event>,
)
    requires
        b2 == (BindingsView { hints_resolved: b2.hints_resolved, ..b }),
    ensures
        claim_combos(b2, run, raw, hint, combos, triggers) == claim_combos(
            b,
            run,
            raw,
            hint,
            combos,
            triggers,
        ),
    decreases combos.len(),
{
    if combos.len() > 0 {
        lemma_combos_ignore_resolved(b, b2, run, raw, hint, combos.drop_last(), triggers);
        lemma_triggers_ignore_resolved(
            b,
            b2,
            claim_combos(b, run, raw, hint, combos.drop_last(), triggers),
            raw,
            hint,
            canonical(combos.last()),
            triggers,
        );
    }
}

proof fn lemma_triggers_ignore_resolved(
    b: BindingsView,
    b2: BindingsView,
    run: HintRun,
    raw: Seq<char>,
    hint: (Seq<char>, bool),
    held: Seq<Event>,
    triggers: Seq<Event>,
)
    requires
        b2 == (BindingsView { hints_resolved: b2.hints_resolved, ..b }),
    ensures
        claim_triggers(b2, run, raw, hint, held, triggers) == claim_triggers(
            b,
            run,
            raw,
            hint,
            held,
            triggers,
        ),
    decreases triggers.len(),
{
    if triggers.len() > 0 {
        lemma_triggers_ignore_resolved(b, b2, run, raw, hint, held, triggers.drop_last());
    }
}

proof fn lemma_hints_can_be_listed(hints: Map<Seq<char>, Seq<char>>)
    requires
        hints.dom().finite(),
    ensures
        exists|s: Seq<Seq<char>>| lists_hints(s, hints),
    decreases hints.dom().len(),
{
    if hints.dom().len() == 0 {
        let s = Seq::<Seq<char>>::empty();
        assert forall|x: Seq<char>| #[trigger] s.contains(x) <==> hints.contains_key(x) by {
            assert(!hints.dom().contains(x));
        }
        assert(lists_hints(s, hints));
    } else {
        let k = hints.dom().choose();
        let rest = hints.remove(k);
        assert(rest.dom() =~= hints.dom().remove(k));
        lemma_hints_can_be_listed(rest);
        let t = choose|t: Seq<Seq<char>>| lists_hints(t, rest);
        let more = t.push(k);
        lemma_arrange::<String>(more);
        let s = arrange::<String>(more);
        assert forall|x: Seq<char>| #[trigger] s.contains(x) <==> hints.contains_key(x) by {
            assert(s.contains(x) <==> more.contains(x));
            assert(t.contains(x) <==> rest.contains_key(x));
            assert(more[t.len() as int] == k);
            if t.contains(x) {
                let i = choose|i: int| 0 <= i < t.len() && t[i] == x;
                assert(more[i] == x);
            }
            if more.contains(x) {
                let i = choose|i: int| 0 <= i < more.len() && more[i] == x;
                if i < t.len() {
                    assert(t[i] == x);
                }
            }
        }
        assert(lists_hints(s, hints));
    }
}

/// Whether what is on the buttons is in order: nothing that a hint must not
/// cover is covered, and every label is that of the written line that has the
/// button.
pub open spec fn well_placed(b: BindingsView, own: Option<BindingsView>, run: HintRun) -> bool {
    &&& run.resolved.dom() == run.claimed_by.dom()
    &&& forall|c: ComboView| #[trigger]
        run.resolved.contains_key(c) ==> {
            let raw = run.claimed_by[c];
            &&& !taken(b, c)
            &&& b.hints.contains_key(raw)
            &&& run.resolved[c] == (
                b.hints[raw],
                own matches Some(o) && o.hints.contains_key(raw),
            )
        }
}

/// A hint never covers a real combo, nor a label that was written for a plain
/// button; and what it shows is what the line says that has the button.
pub proof fn law_hints_cover_nothing(b: BindingsView, own: Option<BindingsView>)
    requires
        b.hints.dom().finite(),
    ensures
        well_placed(b, own, resolved_hints(b, own)),
{
    let lines = hint_order(b.hints);
    lemma_hints_can_be_listed(b.hints);
    assert(lists_hints(lines, b.hints));
    assert forall|i: int| 0 <= i < lines.len() implies b.hints.contains_key(#[trigger] lines[i]) by {
        assert(lines.contains(lines[i]));
    }
    lemma_lines_well_placed(b, own, lines);
}

proof fn lemma_lines_well_placed(
    b: BindingsView,
    own: Option<BindingsView>,
    lines: Seq<Seq<char>>,
)
    requires
        forall|i: int| 0 <= i < lines.len() ==> b.hints.contains_key(#[trigger] lines[i]),
    ensures
        well_placed(b, own, hint_lines(b, own, lines)),
    decreases lines.len(),
{
    if lines.len() > 0 {
        assert forall|i: int| 0 <= i < lines.drop_last().len() implies b.hints.contains_key(
            #[trigger] lines.drop_last()[i],
        ) by {
            assert(lines.drop_last()[i] == lines[i]);
        }
        lemma_lines_well_placed(b, own, lines.drop_last());
        let run = hint_lines(b, own, lines.drop_last());
        let raw = lines.last();
        assert(raw == lines[lines.len() - 1]);
        let (mods, trigger) = hint_parts(raw);
        let side = modifier_side(b.remap, raw, nonempty(pieces(mods, '-')));
        let from_override = own matches Some(o) && o.hints.contains_key(raw);
        let with_side = HintRun { warnings: run.warnings + side.warnings, ..run };
        if !side.dead {
            if let Ok(triggers) = segment(b.remap, trigger) {
                let told = HintRun {
                    warnings: if triggers.len() > 1 {
                        with_side.warnings.push(ambiguity_warning(raw, trigger, triggers.len()))
                    } else {
                        with_side.warnings
                    },
                    ..run
                };
                assert(well_placed(b, own, told));
                lemma_combos_well_placed(b, own, told, raw, side.combos, triggers);
            }
        }
    }
}

proof fn lemma_combos_well_placed(
    b: BindingsView,
    own: Option<BindingsView>,
    run: HintRun,
    raw: Seq<char>,
    combos: Seq<Seq<Event>>,
    triggers: Seq<Event>,
)
    requires
        b.hints.contains_key(raw),
        well_placed(b, own, run),
    ensures
        ({
            let hint = (b.hints[raw], own matches Some(o) && o.hints.contains_key(raw));
            well_placed(b, own, claim_combos(b, run, raw, hint, combos, triggers))
        }),
    decreases combos.len(),
{
    if combos.len() > 0 {
        let hint = (b.hints[raw], own matches Some(o) && o.hints.contains_key(raw));
        lemma_combos_well_placed(b, own, run, raw, combos.drop_last(), triggers);
        lemma_triggers_well_placed(
            b,
            own,
            claim_combos(b, run, raw, hint, combos.drop_last(), triggers),
            raw,
            canonical(combos.last()),
            triggers,
        );
    }
}

proof fn lemma_triggers_well_placed(
    b: BindingsView,
    own: Option<BindingsView>,
    run: HintRun,
    raw: Seq<char>,
    held: Seq<Event>,
    triggers: Seq<Event>,
)
    requires
        b.hints.contains_key(raw),
        well_placed(b, own, run),
    ensures
        ({
            let hint = (b.hints[raw], own matches Some(o) && o.hints.contains_key(raw));
            well_placed(b, own, claim_triggers(b, run, raw, hint, held, triggers))
        }),
    decreases triggers.len(),
{
    if triggers.len() > 0 {
        let hint = (b.hints[raw], own matches Some(o) && o.hints.contains_key(raw));
        lemma_triggers_well_placed(b, own, run, raw, held, triggers.drop_last());
        let before = claim_triggers(b, run, raw, hint, held, triggers.drop_last());
        let c = (triggers.last(), held);
        let after = claim(b, before, raw, hint, c);
        if after.resolved != before.resolved {
            assert(after.resolved.dom() =~= after.claimed_by.dom());
        }
    }
}

// ── Where hints land ─────────────────────────────────────────────────────────

/// Whether the line `raw` may still have the combo `c`.
spec fn open_to(run: HintRun, raw: Seq<char>, c: ComboView) -> bool {
    run.claimed_by.contains_key(c) ==> run.claimed_by[c] == raw
}

/// Whether the line `raw` has the combo `c`.
spec fn has_combo(run: HintRun, raw: Seq<char>, hint: (Seq<char>, bool), c: ComboView) -> bool {
    &&& run.claimed_by.contains_key(c) && run.claimed_by[c] == raw
    &&& run.resolved.contains_key(c) && run.resolved[c] == hint
}

proof fn lemma_claim_triggers(
    b: BindingsView,
    run: HintRun,
    raw: Seq<char>,
    hint: (Seq<char>, bool),
    held: Seq<Event>,
    triggers: Seq<Event>,
    c: ComboView,
)
    ensures
        ({
            let r = claim_triggers(b, run, raw, hint, held, triggers);
            &&& open_to(run, raw, c) ==> open_to(r, raw, c)
            &&& has_combo(run, raw, hint, c) ==> has_combo(r, raw, hint, c)
            &&& !taken(b, c) && open_to(run, raw, c) && c.1 == held && triggers.contains(c.0)
                ==> has_combo(r, raw, hint, c)
        }),
    decreases triggers.len(),
{
    if triggers.len() > 0 {
        let init = triggers.drop_last();
        lemma_claim_triggers(b, run, raw, hint, held, init, c);
        if triggers.contains(c.0) && c.0 != triggers.last() {
            let i = choose|i: int| 0 <= i < triggers.len() && triggers[i] == c.0;
            assert(init[i] == c.0);
        }
    }
}

proof fn lemma_claim_combos(
    b: BindingsView,
    run: HintRun,
    raw: Seq<char>,
    hint: (Seq<char>, bool),
    combos: Seq<Seq<Event>>,
    triggers: Seq<Event>,
    c: ComboView,
)
    ensures
        ({
            let r = claim_combos(b, run, raw, hint, combos, triggers);
            &&& open_to(run, raw, c) ==> open_to(r, raw, c)
            &&& has_combo(run, raw, hint, c) ==> has_combo(r, raw, hint, c)
            &&& !taken(b, c) && open_to(run, raw, c) && triggers.contains(c.0) && (exists|i: int|
                0 <= i < combos.len() && canonical(#[trigger] combos[i]) == c.1) ==> has_combo(
                r,
                raw,
                hint,
                c,
            )
        }),
    decreases combos.len(),
{
    if combos.len() > 0 {
        let init = combos.drop_last();
        lemma_claim_combos(b, run, raw, hint, init, triggers, c);
        let before = claim_combos(b, run, raw, hint, init, triggers);
        lemma_claim_triggers(b, before, raw, hint, canonical(combos.last()), triggers, c);
        if exists|i: int| 0 <= i < combos.len() && canonical(#[trigger] combos[i]) == c.1 {
            let i = choose|i: int| 0 <= i < combos.len() && canonical(#[trigger] combos[i]) == c.1;
            if i < init.len() {
                assert(init[i] == combos[i]);
            }
        }
    }
}

/// A hint on a key lands on every button that sends the key by itself, unless
/// the button has a label of its own or another line had it first.
pub proof fn law_hints_land_on_the_buttons_of_their_key(
    b: BindingsView,
    own: Option<BindingsView>,
    run: HintRun,
    raw: Seq<char>,
    k: Key,
    t: Event,
)
    requires
        !raw.contains('-'),
        starts(raw, "KEY_"@),
        event_of_name(raw) == Some(Event::Key(k)),
        b.remap.contains_key((t, Seq::<Event>::empty())),
        b.remap[(t, Seq::<Event>::empty())].contains(k),
        exists|s: Seq<Event>| lists_emitters(s, b.remap, k),
        !b.labels.contains_key((t, Seq::<Event>::empty())),
        !run.claimed_by.contains_key((t, Seq::<Event>::empty())),
    ensures
        ({
            let after = hint_line(b, own, run, raw);
            let c = (t, Seq::<Event>::empty());
            &&& after.resolved.contains_key(c)
            &&& after.resolved[c].0 == b.hints[raw]
            &&& after.resolved[c].1 == (own is Some && own->0.hints.contains_key(raw))
        }),
{
    let c = (t, Seq::<Event>::empty());
    lemma_no_dash(raw);
    let none = Seq::<char>::empty();
    assert(pieces(none, '-') =~= seq![none]) by {
        lemma_one_piece(none, '-');
    }
    assert(nonempty(seq![none]) =~= Seq::<Seq<char>>::empty()) by {
        assert(seq![none].drop_last() =~= Seq::<Seq<char>>::empty());
        assert(seq![none].last().len() == 0);
        assert(nonempty(seq![none].drop_last()) == Seq::<Seq<char>>::empty());
    }
    let e = emitters(b.remap, k);
    assert(lists_emitters(e, b.remap, k));
    assert(emits(b.remap, t, k));
    assert(e.contains(t));
    let hint = (b.hints[raw], own matches Some(o) && o.hints.contains_key(raw));
    let side = modifier_side(b.remap, raw, Seq::empty());
    let told = HintRun {
        warnings: if e.len() > 1 {
            (run.warnings + side.warnings).push(ambiguity_warning(raw, raw, e.len()))
        } else {
            run.warnings + side.warnings
        },
        ..run
    };
    let combos = side.combos;
    assert(combos[0] == Seq::<Event>::empty());
    assert(canonical(combos[0]) =~= Seq::<Event>::empty()) by {
        lemma_canonical_one(combos[0]);
    }
    lemma_claim_combos(b, told, raw, hint, combos, e, c);
}

proof fn lemma_no_dash(raw: Seq<char>)
    requires
        !raw.contains('-'),
    ensures
        cut_last(raw, '-') is None,
{
    assert forall|j: int| -1 < j < raw.len() implies #[trigger] raw[j] != '-' by {
        assert(raw.contains(raw[j]));
    }
    if raw.len() > 0 {
        lemma_cut_last(raw, '-', -1);
    }
}

proof fn lemma_canonical_one(s: Seq<Event>)
    requires
        s.len() <= 1,
    ensures
        canonical(s) == s,
{
    lemma_arrange::<Event>(s);
    let r = canonical(s);
    if s.len() == 0 {
        if r.len() > 0 {
            assert(r.contains(r[0]));
        }
        assert(r =~= s);
    } else {
        assert(s.contains(s[0]));
        assert(r.contains(s[0]));
        assert forall|i: int| 0 <= i < r.len() implies #[trigger] r[i] == s[0] by {
            assert(r.contains(r[i]));
        }
        if r.len() > 1 {
            assert(<Event as crate::order::Ordered>::before(r[0], r[1]));
            <Event as crate::order::Ordered>::before_irreflexive(s[0]);
        }
        assert(r =~= s);
    }
}

/// A hint on a shortcut of two keys lands on the button that sends the second,
/// under the button that sends the first as its modifier: on every such pair
/// that is not bound to anything and that no other line had first.
pub proof fn law_hints_land_on_the_combos_of_their_keys(
    b: BindingsView,
    own: Option<BindingsView>,
    run: HintRun,
    first: Seq<char>,
    second: Seq<char>,
    a: Key,
    k: Key,
    m: Event,
    t: Event,
)
    requires
        !first.contains('-'),
        !second.contains('-'),
        starts(first, "KEY_"@),
        starts(second, "KEY_"@),
        event_of_name(first) == Some(Event::Key(a)),
        event_of_name(second) == Some(Event::Key(k)),
        b.remap.contains_key((m, Seq::<Event>::empty())),
        b.remap[(m, Seq::<Event>::empty())].contains(a),
        b.remap.contains_key((t, Seq::<Event>::empty())),
        b.remap[(t, Seq::<Event>::empty())].contains(k),
        exists|s: Seq<Event>| lists_emitters(s, b.remap, a),
        exists|s: Seq<Event>| lists_emitters(s, b.remap, k),
        !b.remap.contains_key((t, seq![m])),
        !b.commands.contains_key((t, seq![m])),
        !b.movements.contains_key((t, seq![m])),
        !run.claimed_by.contains_key((t, seq![m])),
    ensures
        ({
            let raw = first + seq!['-'] + second;
            let after = hint_line(b, own, run, raw);
            let c = (t, seq![m]);
            &&& after.resolved.contains_key(c)
            &&& after.resolved[c].0 == b.hints[raw]
            &&& after.resolved[c].1 == (own is Some && own->0.hints.contains_key(raw))
        }),
{
    let raw = first + seq!['-'] + second;
    let c = (t, seq![m]);
    let n = first.len() as int;
    assert forall|j: int| n < j < raw.len() implies #[trigger] raw[j] != '-' by {
        assert(raw[j] == second[j - n - 1]);
        assert(second.contains(second[j - n - 1]));
    }
    lemma_cut_last(raw, '-', n);
    assert(raw.take(n) =~= first);
    assert(raw.skip(n + 1) =~= second);
    reveal_strlit("KEY_");
    lemma_one_piece(first, '-');
    let segs = seq![first];
    assert(pieces(first, '-') =~= segs);
    assert(segs.drop_last() =~= Seq::<Seq<char>>::empty());
    assert(nonempty(segs.drop_last()) == Seq::<Seq<char>>::empty());
    assert(nonempty(segs) =~= segs);
    let ea = emitters(b.remap, a);
    let ek = emitters(b.remap, k);
    assert(lists_emitters(ea, b.remap, a));
    assert(lists_emitters(ek, b.remap, k));
    assert(emits(b.remap, m, a));
    assert(emits(b.remap, t, k));
    assert(ea.contains(m));
    assert(ek.contains(t));
    let side = modifier_side(b.remap, raw, segs);
    let start = modifier_side(b.remap, raw, segs.drop_last());
    assert(start.combos == seq![Seq::<Event>::empty()]);
    assert(side.combos == extended(start.combos, ea));
    let j = choose|j: int| 0 <= j < ea.len() && ea[j] == m;
    assert(start.combos.drop_last() =~= Seq::<Seq<Event>>::empty());
    assert(extended(start.combos.drop_last(), ea) == Seq::<Seq<Event>>::empty());
    assert(side.combos =~= Seq::new(ea.len(), |i: int| Seq::<Event>::empty().push(ea[i])));
    assert(side.combos[j] =~= seq![m]);
    lemma_canonical_one(seq![m]);
    let hint = (b.hints[raw], own matches Some(o) && o.hints.contains_key(raw));
    let told = HintRun {
        warnings: if ek.len() > 1 {
            (run.warnings + side.warnings).push(ambiguity_warning(raw, second, ek.len()))
        } else {
            run.warnings + side.warnings
        },
        ..run
    };
    lemma_claim_combos(b, told, raw, hint, side.combos, ek, c);
}

/// A hint on what is no key name lands nowhere, and a warning says that it can
/// never be shown.
pub proof fn law_hints_on_other_names_are_warned_of(
    b: BindingsView,
    own: Option<BindingsView>,
    run: HintRun,
    raw: Seq<char>,
)
    requires
        !raw.contains('-'),
        !starts(raw, "KEY_"@),
    ensures
        ({
            let after = hint_line(b, own, run, raw);
            &&& after.resolved == run.resolved
            &&& after.claimed_by == run.claimed_by
            &&& after.warnings == run.warnings.push(
                "hint "@ + quoted(raw) + ": "@ + (quoted(raw)
                    + " is not a key name — hints are written in output space (KEY_*)"@)
                    + " — hint can never be shown"@,
            )
        }),
{
    lemma_no_dash(raw);
    let none = Seq::<char>::empty();
    assert(pieces(none, '-') =~= seq![none]) by {
        lemma_one_piece(none, '-');
    }
    assert(seq![none].drop_last() =~= Seq::<Seq<char>>::empty());
    assert(nonempty(seq![none].drop_last()) == Seq::<Seq<char>>::empty());
    assert(nonempty(seq![none]) =~= Seq::<Seq<char>>::empty());
    assert(run.warnings + Seq::<Seq<char>>::empty() =~= run.warnings);
}

} // verus!
