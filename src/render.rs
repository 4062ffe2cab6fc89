//! The text that an atom sequence and its slot texts stand for.

use vstd::prelude::*;
use crate::encode::EncTok;
use crate::interner::{Interner, SlotValue};
use crate::template::Template;

verus! {

/// The atoms a token stands for.
pub open spec fn tok_atoms(templates: Seq<Template>, t: EncTok) -> Seq<u32> {
    match t {
        EncTok::Template(id) => templates[id as int].atoms@,
        EncTok::LiteralAtom(a) => seq![a],
    }
}

/// The atom sequence a token stream stands for.
pub open spec fn expand(templates: Seq<Template>, toks: Seq<EncTok>) -> Seq<u32>
    decreases toks.len(),
{
    if toks.len() == 0 {
        Seq::empty()
    } else {
        expand(templates, toks.drop_last()) + tok_atoms(templates, toks.last())
    }
}

/// Whether an atom is of a slot kind.
pub open spec fn is_slot_atom(intr: &Interner, aid: u32) -> bool {
    intr.atoms()[aid as int].0.is_slot_spec()
}

/// The number of slot atoms in a sequence.
pub open spec fn slot_total(intr: &Interner, ids: Seq<u32>) -> nat
    decreases ids.len(),
{
    if ids.len() == 0 {
        0
    } else {
        slot_total(intr, ids.drop_last()) + if is_slot_atom(intr, ids.last()) {
            1nat
        } else {
            0nat
        }
    }
}

/// The text of one atom: its payload for a fixed kind, else slot text number `k`
/// (empty when there is none).
pub open spec fn piece(intr: &Interner, aid: u32, slot_texts: Seq<Seq<char>>, k: nat) -> Seq<char> {
    if is_slot_atom(intr, aid) {
        if k < slot_texts.len() {
            slot_texts[k as int]
        } else {
            Seq::empty()
        }
    } else {
        intr.payloads()[intr.atoms()[aid as int].1 as int]
    }
}

/// The text of an atom sequence, slot atoms taking the slot texts in order.
pub open spec fn render(intr: &Interner, ids: Seq<u32>, slot_texts: Seq<Seq<char>>) -> Seq<char>
    decreases ids.len(),
{
    if ids.len() == 0 {
        Seq::empty()
    } else {
        render(intr, ids.drop_last(), slot_texts) + piece(
            intr,
            ids.last(),
            slot_texts,
            slot_total(intr, ids.drop_last()),
        )
    }
}

/// The texts behind slot values.
pub open spec fn slot_texts(intr: &Interner, slots: Seq<SlotValue>) -> Seq<Seq<char>> {
    slots.map_values(|s: SlotValue| intr.payloads()[s.payload as int])
}

/// Every atom id of every template is known to the interner.
pub open spec fn templates_known(intr: &Interner, templates: Seq<Template>) -> bool {
    forall|t: int, j: int|
        0 <= t < templates.len() && 0 <= j < templates[t].atoms@.len()
            ==> #[trigger] templates[t].atoms@[j] < intr.atoms().len()
}

/// Every token names a known template or atom.
pub open spec fn toks_known(intr: &Interner, templates: Seq<Template>, toks: Seq<EncTok>) -> bool {
    forall|i: int|
        0 <= i < toks.len() ==> match #[trigger] toks[i] {
            EncTok::Template(id) => id < templates.len(),
            EncTok::LiteralAtom(a) => a < intr.atoms().len(),
        }
}

/// Every slot value names a known payload.
pub open spec fn slots_known(intr: &Interner, slots: Seq<SlotValue>) -> bool {
    forall|k: int| 0 <= k < slots.len() ==> #[trigger] slots[k].payload < intr.payloads().len()
}

} // verus!
