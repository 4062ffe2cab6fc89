//! Decoding: token stream back to the text it was encoded from.

use vstd::prelude::*;
use vstd::math::min;
use vstd::string::StringExecFns;
use crate::encode::{EncTok, EncodeResult};
use crate::interner::{Interner, SlotValue};
use crate::render::{expand, is_slot_atom, piece, render, slot_texts, slot_total, slots_known, templates_known, tok_atoms, toks_known};
use crate::template::Template;

verus! {

pub proof fn lemma_render_push(intr: &Interner, ids: Seq<u32>, a: u32, st: Seq<Seq<char>>)
    ensures
        render(intr, ids.push(a), st) == render(intr, ids, st) + piece(intr, a, st, slot_total(intr, ids)),
        slot_total(intr, ids.push(a)) == slot_total(intr, ids) + if is_slot_atom(intr, a) { 1nat } else { 0nat },
{
    assert(ids.push(a).drop_last() =~= ids);
}

pub proof fn lemma_expand_push(templates: Seq<Template>, toks: Seq<EncTok>, i: int)
    requires
        0 <= i < toks.len(),
    ensures
        expand(templates, toks.take(i + 1)) == expand(templates, toks.take(i)) + tok_atoms(templates, toks[i]),
{
    assert(toks.take(i + 1).drop_last() =~= toks.take(i));
}

/// Appends the text of atom `aid` to `out`: its payload, or the slot text at `cursor`,
/// which then advances, stopping at the end of `slots`.
fn emit_atom(intr: &Interner, aid: u32, slots: &Vec<SlotValue>, out: &mut String, cursor: &mut usize)
    requires
        aid < intr.atoms().len(),
        intr.wf(),
        slots_known(intr, slots@),
        *old(cursor) <= slots@.len(),
    ensures
        final(out)@ == old(out)@ + piece(intr, aid, slot_texts(intr, slots@), *old(cursor) as nat),
        *final(cursor) as int == if is_slot_atom(intr, aid) && *old(cursor) < slots@.len() {
            *old(cursor) + 1
        } else {
            *old(cursor) as int
        },
{
    let (kind, pid) = intr.atom_info(aid);
    if kind.is_slot() {
        if *cursor < slots.len() {
            let sv = slots[*cursor];
            out.append(intr.payload_str(sv.payload));
            *cursor = *cursor + 1;
        }
    } else {
        out.append(intr.payload_str(pid));
    }
}

/// Rebuilds the text of an encoded result. A slot atom past the last slot value
/// contributes nothing.
pub fn decode(interner: &Interner, templates: &[Template], encoded: &EncodeResult) -> (r: String)
    requires
        interner.wf(),
        templates_known(interner, templates@),
        toks_known(interner, templates@, encoded.toks@),
        slots_known(interner, encoded.slots@),
    ensures
        r@ == render(
            interner,
            expand(templates@, encoded.toks@),
            slot_texts(interner, encoded.slots@),
        ),
{
    let ghost tpl = templates@;
    let ghost toks = encoded.toks@;
    let ghost st = slot_texts(interner, encoded.slots@);
    let mut out = String::new();
    let mut cursor: usize = 0;
    let mut i: usize = 0;
    proof {
        assert(toks.take(0) =~= Seq::<EncTok>::empty());
    }
    while i < encoded.toks.len()
        invariant
            i <= toks.len(),
            toks == encoded.toks@,
            tpl == templates@,
            st == slot_texts(interner, encoded.slots@),
            interner.wf(),
            templates_known(interner, tpl),
            toks_known(interner, tpl, toks),
            slots_known(interner, encoded.slots@),
            out@ == render(interner, expand(tpl, toks.take(i as int)), st),
            cursor as nat == min(slot_total(interner, expand(tpl, toks.take(i as int))) as int,
                encoded.slots@.len() as int),
        decreases toks.len() - i,
    {
        let ghost before = expand(tpl, toks.take(i as int));
        proof {
            lemma_expand_push(tpl, toks, i as int);
        }
        match encoded.toks[i] {
            EncTok::Template(tid) => {
                assert(toks_known(interner, tpl, toks) ==> tid < tpl.len());
                let t = &templates[tid as usize];
                let mut j: usize = 0;
                proof {
                    assert(before + t.atoms@.take(0) =~= before);
                }
                while j < t.atoms.len()
                    invariant
                        j <= t.atoms@.len(),
                        t == tpl[tid as int],
                        tid < tpl.len(),
                        st == slot_texts(interner, encoded.slots@),
                        interner.wf(),
                        templates_known(interner, tpl),
                        slots_known(interner, encoded.slots@),
                        out@ == render(interner, before + t.atoms@.take(j as int), st),
                        cursor as nat == min(slot_total(interner, before + t.atoms@.take(j as int)) as int,
                            encoded.slots@.len() as int),
                    decreases t.atoms@.len() - j,
                {
                    let aid = t.atoms[j];
                    proof {
                        assert(templates_known(interner, tpl) ==> tpl[tid as int].atoms@[j as int] < interner.atoms().len());
                        lemma_render_push(interner, before + t.atoms@.take(j as int), aid, st);
                        assert((before + t.atoms@.take(j as int)).push(aid) =~= before + t.atoms@.take(j + 1));
                    }
                    emit_atom(interner, aid, &encoded.slots, &mut out, &mut cursor);
                    j = j + 1;
                }
                proof {
                    assert(t.atoms@.take(j as int) =~= t.atoms@);
                }
            },
            EncTok::LiteralAtom(aid) => {
                proof {
                    lemma_render_push(interner, before, aid, st);
                    assert(before.push(aid) =~= before + seq![aid]);
                }
                emit_atom(interner, aid, &encoded.slots, &mut out, &mut cursor);
            },
        }
        i = i + 1;
    }
    proof {
        assert(toks.take(i as int) =~= toks);
    }
    out
}

/// Appends the text of atom `aid` to `out`: its payload, or `slots[cursor]`, which
/// then advances, stopping at the end of `slots`.
pub(crate) fn emit_atom_text(intr: &Interner, aid: u32, slots: &[String], out: &mut String, cursor: &mut usize)
    requires
        aid < intr.atoms().len(),
        intr.wf(),
        *old(cursor) <= slots@.len(),
    ensures
        final(out)@ == old(out)@ + piece(intr, aid, string_views(slots@), *old(cursor) as nat),
        *final(cursor) as int == if is_slot_atom(intr, aid) && *old(cursor) < slots@.len() {
            *old(cursor) + 1
        } else {
            *old(cursor) as int
        },
{
    let (kind, pid) = intr.atom_info(aid);
    if kind.is_slot() {
        if *cursor < slots.len() {
            out.append(slots[*cursor].as_str());
            *cursor = *cursor + 1;
        }
    } else {
        out.append(intr.payload_str(pid));
    }
}

/// The character sequences of some strings.
pub open spec fn string_views(v: Seq<String>) -> Seq<Seq<char>> {
    v.map_values(|s: String| s@)
}

} // verus!
