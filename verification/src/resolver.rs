//! What a press does: the binding of an event under the modifiers that are held.

use crate::config::{Bindings, BindingsView, ComboSet, ComboView};
use crate::event::{canonical, copy_list, Combo, Event, Key, Relative};
use crate::order::lemma_arrange_same_members;
use crate::text::{copy_texts, text_in};
use vstd::prelude::*;

verus! {

/// What a press does.
#[derive(Debug, Clone, PartialEq, Eq)]
pub enum ResolvedBinding {
    /// Send these keys.
    Keys {
        keys: Vec<Key>,
        label: Option<String>,
        no_pause: bool,
        /// Whether it acts even in gaming mode.
        while_gaming: bool,
        silent: bool,
        /// Whether modifiers were part of the match.
        is_combo: bool,
        /// Whether modifiers are held that the match says nothing of; what they
        /// send has to stay held.
        is_fallback: bool,
    },
    /// Run these commands.
    Command {
        commands: Vec<String>,
        label: Option<String>,
        no_pause: bool,
        /// Whether it acts even in gaming mode.
        while_gaming: bool,
        silent: bool,
        is_combo: bool,
    },
    /// Move the pointer or scroll.
    Movement { movement: Relative, is_combo: bool },
    /// A hold binding: modifiers are held without a combo that matches.
    Hold { keys: Vec<Key> },
    /// Nothing.
    Unbound,
}

/// What a press does, without its representation.
pub enum Resolution {
    Keys {
        keys: Seq<Key>,
        label: Option<Seq<char>>,
        no_pause: bool,
        while_gaming: bool,
        silent: bool,
        is_combo: bool,
        is_fallback: bool,
    },
    Command {
        commands: Seq<String>,
        label: Option<Seq<char>>,
        no_pause: bool,
        while_gaming: bool,
        silent: bool,
        is_combo: bool,
    },
    Movement { movement: Relative, is_combo: bool },
    Hold { keys: Seq<Key> },
    Unbound,
}

impl View for ResolvedBinding {
    type V = Resolution;

    open spec fn view(&self) -> Resolution {
        match *self {
            ResolvedBinding::Keys {
                keys,
                label,
                no_pause,
                while_gaming,
                silent,
                is_combo,
                is_fallback,
            } => Resolution::Keys {
                keys: keys@,
                label: text_in(label),
                no_pause,
                while_gaming,
                silent,
                is_combo,
                is_fallback,
            },
            ResolvedBinding::Command {
                commands,
                label,
                no_pause,
                while_gaming,
                silent,
                is_combo,
            } => Resolution::Command {
                commands: commands@,
                label: text_in(label),
                no_pause,
                while_gaming,
                silent,
                is_combo,
            },
            ResolvedBinding::Movement { movement, is_combo } => Resolution::Movement {
                movement,
                is_combo,
            },
            ResolvedBinding::Hold { keys } => Resolution::Hold { keys: keys@ },
            ResolvedBinding::Unbound => Resolution::Unbound,
        }
    }
}

/// Whether a flag is set for the combo or for the button alone.
pub open spec fn flagged(set: Set<ComboView>, event: Event, mods: Seq<Event>) -> bool {
    set.contains((event, mods)) || set.contains((event, Seq::empty()))
}

/// The label of a combo.
pub open spec fn label_of(b: BindingsView, c: ComboView) -> Option<Seq<char>> {
    if b.labels.contains_key(c) {
        Some(b.labels[c])
    } else {
        None
    }
}

/// What a press of `event` does while `mods` are held: the combo's remap; a hold
/// binding, unless nothing is held and hold bindings need a chain; the combo's
/// command; its movement; and last the remap of the button alone.
pub open spec fn resolution(
    b: BindingsView,
    event: Event,
    mods: Seq<Event>,
    chain_only: bool,
) -> Resolution {
    let c = (event, mods);
    let hold = (event, seq![Event::Hold]);
    let alone = (event, Seq::<Event>::empty());
    let is_combo = mods.len() > 0;
    if b.remap.contains_key(c) {
        Resolution::Keys {
            keys: b.remap[c],
            label: label_of(b, c),
            no_pause: flagged(b.no_pause, event, mods),
            while_gaming: flagged(b.while_gaming, event, mods),
            silent: flagged(b.silent, event, mods),
            is_combo,
            is_fallback: false,
        }
    } else if b.remap.contains_key(hold) && (is_combo || !chain_only) {
        Resolution::Hold { keys: b.remap[hold] }
    } else if b.commands.contains_key(c) {
        Resolution::Command {
            commands: b.commands[c],
            label: label_of(b, c),
            no_pause: flagged(b.no_pause, event, mods),
            while_gaming: flagged(b.while_gaming, event, mods),
            silent: flagged(b.silent, event, mods),
            is_combo,
        }
    } else if b.movements.contains_key(c) {
        Resolution::Movement { movement: b.movements[c], is_combo }
    } else if b.remap.contains_key(alone) {
        Resolution::Keys {
            keys: b.remap[alone],
            label: label_of(b, alone),
            no_pause: b.no_pause.contains(alone),
            while_gaming: b.while_gaming.contains(alone),
            silent: b.silent.contains(alone),
            is_combo: false,
            is_fallback: is_combo,
        }
    } else {
        Resolution::Unbound
    }
}

/// Whether a flag is set for the combo or for the button alone.
pub fn is_flagged(set: &ComboSet, c: &Combo) -> (r: bool)
    ensures
        r == flagged(set@.dom(), c.trigger, c.held@),
{
    set.contains_key(c) || set.contains_key(&Combo::plain(c.trigger))
}

fn label_text(b: &Bindings, c: &Combo) -> (r: Option<String>)
    ensures
        text_in(r) == label_of(b@, c@),
{
    match b.labels.get(c) {
        Some(l) => Some(l.clone()),
        None => None,
    }
}

/// What a press of `event` does while `modifiers`, in canonical form, are held.
/// With `chain_only`, hold bindings need a held modifier.
pub fn resolve_binding(
    bindings: &Bindings,
    event: Event,
    modifiers: &Vec<Event>,
    chain_only: bool,
) -> (r: ResolvedBinding)
    ensures
        r@ == resolution(bindings@, event, modifiers@, chain_only),
{
    let combo = Combo::of(event, modifiers);
    let is_combo: bool = modifiers.len() > 0;
    if let Some(keys) = bindings.remap.get(&combo) {
        return ResolvedBinding::Keys {
            keys: copy_list(keys),
            label: label_text(bindings, &combo),
            no_pause: is_flagged(&bindings.no_pause, &combo),
            while_gaming: is_flagged(&bindings.while_gaming, &combo),
            silent: is_flagged(&bindings.silent, &combo),
            is_combo,
            is_fallback: false,
        };
    }
    let mut marker: Vec<Event> = Vec::new();
    marker.push(Event::Hold);
    let hold = Combo::new(event, marker);
    assert(hold.held@ =~= seq![Event::Hold]);
    if is_combo || !chain_only {
        if let Some(keys) = bindings.remap.get(&hold) {
            return ResolvedBinding::Hold { keys: copy_list(keys) };
        }
    }
    if let Some(commands) = bindings.commands.get(&combo) {
        return ResolvedBinding::Command {
            commands: copy_texts(commands),
            label: label_text(bindings, &combo),
            no_pause: is_flagged(&bindings.no_pause, &combo),
            while_gaming: is_flagged(&bindings.while_gaming, &combo),
            silent: is_flagged(&bindings.silent, &combo),
            is_combo,
        };
    }
    if let Some(movement) = bindings.movements.get(&combo) {
        return ResolvedBinding::Movement { movement: *movement, is_combo };
    }
    let alone = Combo::plain(event);
    if let Some(keys) = bindings.remap.get(&alone) {
        return ResolvedBinding::Keys {
            keys: copy_list(keys),
            label: label_text(bindings, &alone),
            no_pause: bindings.no_pause.contains_key(&alone),
            while_gaming: bindings.while_gaming.contains_key(&alone),
            silent: bindings.silent.contains_key(&alone),
            is_combo: false,
            is_fallback: is_combo,
        };
    }
    ResolvedBinding::Unbound
}

// ── Laws ─────────────────────────────────────────────────────────────────────

/// What a button does depends on which modifiers are held, not on the order in
/// which they went down.
pub proof fn law_order_of_modifiers_does_not_matter(
    b: BindingsView,
    event: Event,
    held: Seq<Event>,
    other: Seq<Event>,
    chain_only: bool,
)
    requires
        forall|e: Event| #[trigger] held.contains(e) <==> other.contains(e),
    ensures
        resolution(b, event, canonical(held), chain_only) == resolution(
            b,
            event,
            canonical(other),
            chain_only,
        ),
{
    lemma_arrange_same_members::<Event>(held, other);
}

/// The binding of the button alone is only fallen back on where nothing is
/// bound to the combo.
pub proof fn law_fallback_comes_last(
    b: BindingsView,
    event: Event,
    mods: Seq<Event>,
    chain_only: bool,
)
    requires
        resolution(b, event, mods, chain_only) matches Resolution::Keys { is_fallback, .. }
            && is_fallback,
    ensures
        mods.len() > 0,
        !crate::config::bound(b).contains((event, mods)),
        b.remap.contains_key((event, Seq::empty())),
{
}

/// A press without any binding for the combo or the button alone does nothing
/// here, unless a hold binding speaks of the button.
pub proof fn law_unbound_is_unbound(
    b: BindingsView,
    event: Event,
    mods: Seq<Event>,
    chain_only: bool,
)
    requires
        !crate::config::bound(b).contains((event, mods)),
        !b.remap.contains_key((event, Seq::empty())),
        !b.remap.contains_key((event, seq![Event::Hold])),
    ensures
        resolution(b, event, mods, chain_only) == Resolution::Unbound,
{
}

/// What a button does, from first to last: the remap of exactly the modifiers
/// that are held; its hold binding while any is held, or always where none need
/// be; its command for exactly those modifiers; its movement for them; its own
/// remap. A binding for other modifiers has no say.
pub proof fn law_bindings_are_tried_in_order(
    b: BindingsView,
    event: Event,
    mods: Seq<Event>,
    chain_only: bool,
)
    ensures
        ({
            let res = resolution(b, event, mods, chain_only);
            let combo = (event, mods);
            let alone = (event, Seq::<Event>::empty());
            let hold = (event, seq![Event::Hold]);
            let holds = b.remap.contains_key(hold) && (mods.len() > 0 || !chain_only);
            &&& b.remap.contains_key(combo) ==> (res matches Resolution::Keys {
                keys,
                is_combo,
                is_fallback,
                ..
            } && keys == b.remap[combo] && is_combo == (mods.len() > 0) && !is_fallback)
            &&& !b.remap.contains_key(combo) && holds ==> res == (Resolution::Hold {
                keys: b.remap[hold],
            })
            &&& !b.remap.contains_key(combo) && !holds && b.commands.contains_key(combo) ==> (
            res matches Resolution::Command { commands, is_combo, .. } && commands
                == b.commands[combo] && is_combo == (mods.len() > 0))
            &&& !b.remap.contains_key(combo) && !holds && !b.commands.contains_key(combo)
                && b.movements.contains_key(combo) ==> res == (Resolution::Movement {
                movement: b.movements[combo],
                is_combo: mods.len() > 0,
            })
            &&& !b.remap.contains_key(combo) && !holds && !b.commands.contains_key(combo)
                && !b.movements.contains_key(combo) && b.remap.contains_key(alone) ==> (
            res matches Resolution::Keys { keys, is_combo, is_fallback, .. } && keys
                == b.remap[alone] && !is_combo && is_fallback)
            &&& !b.remap.contains_key(combo) && !holds && !b.commands.contains_key(combo)
                && !b.movements.contains_key(combo) && !b.remap.contains_key(alone) ==> res
                == Resolution::Unbound
        }),
{
    if mods.len() == 0 {
        assert(mods =~= Seq::<Event>::empty());
    }
}

/// A binding has the marks that were set for its combo or for its button alone,
/// and the label of what it was found under. A fallback is found under the
/// button alone.
pub proof fn law_bindings_carry_their_marks(
    b: BindingsView,
    event: Event,
    mods: Seq<Event>,
    chain_only: bool,
)
    ensures
        ({
            let combo = (event, mods);
            let alone = (event, Seq::<Event>::empty());
            match resolution(b, event, mods, chain_only) {
                Resolution::Keys {
                    label,
                    no_pause,
                    while_gaming,
                    silent,
                    is_fallback: false,
                    ..
                } => {
                    &&& no_pause <==> b.no_pause.contains(combo) || b.no_pause.contains(alone)
                    &&& while_gaming <==> b.while_gaming.contains(combo)
                        || b.while_gaming.contains(alone)
                    &&& silent <==> b.silent.contains(combo) || b.silent.contains(alone)
                    &&& label is Some <==> b.labels.contains_key(combo)
                    &&& label matches Some(l) ==> l == b.labels[combo]
                },
                Resolution::Keys { label, no_pause, while_gaming, silent, .. } => {
                    &&& no_pause <==> b.no_pause.contains(alone)
                    &&& while_gaming <==> b.while_gaming.contains(alone)
                    &&& silent <==> b.silent.contains(alone)
                    &&& label is Some <==> b.labels.contains_key(alone)
                    &&& label matches Some(l) ==> l == b.labels[alone]
                },
                Resolution::Command { label, no_pause, while_gaming, silent, .. } => {
                    &&& no_pause <==> b.no_pause.contains(combo) || b.no_pause.contains(alone)
                    &&& while_gaming <==> b.while_gaming.contains(combo)
                        || b.while_gaming.contains(alone)
                    &&& silent <==> b.silent.contains(combo) || b.silent.contains(alone)
                    &&& label is Some <==> b.labels.contains_key(combo)
                    &&& label matches Some(l) ==> l == b.labels[combo]
                },
                _ => true,
            }
        }),
{
    if mods.len() == 0 {
        assert(mods =~= Seq::<Event>::empty());
    }
}

} // verus!
