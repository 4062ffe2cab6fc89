//! Properties that relate tokenizing, encoding, decoding and the wire format.

use vstd::prelude::*;
use crate::canonical::{canonical_bytes, encodable, encodes, toks_of_ids, token_id, token_of_id_spec, utf8_views};
use crate::decode::string_views;
use crate::encode::{
    lemma_next_pos, next_pos, stats_spec, tok_at, toks_from, EncTok, EncodeStats,
};
use crate::interner::{Interner, SlotValue};
use crate::render::{expand, render, slot_texts, slot_total, tok_atoms, toks_known};
use crate::template::Template;
use crate::tokenize::{atoms_known, spells};
use crate::trie::{lemma_longest_complete, lemma_longest_sound, Trie};

verus! {

/// Expanding a concatenation of token streams concatenates their atoms.
pub proof fn lemma_expand_concat(templates: Seq<Template>, a: Seq<EncTok>, b: Seq<EncTok>)
    ensures
        expand(templates, a + b) == expand(templates, a) + expand(templates, b),
    decreases b.len(),
{
    if b.len() == 0 {
        assert(a + b =~= a);
        assert(expand(templates, a) + expand(templates, b) =~= expand(templates, a));
    } else {
        lemma_expand_concat(templates, a, b.drop_last());
        assert((a + b).drop_last() =~= a + b.drop_last());
        assert((a + b).last() == b.last());
        assert(expand(templates, a + b) =~= expand(templates, a) + expand(templates, b));
    }
}

/// The tokens emitted from `pos` stand for exactly the atoms from `pos` on, and name
/// known templates and atoms.
pub proof fn lemma_toks_from_expand(trie: &Trie, templates: Seq<Template>, atoms: Seq<u32>, pos: int)
    requires
        trie.wf(),
        trie.sound_for(templates),
        0 <= pos <= atoms.len(),
    ensures
        expand(templates, toks_from(trie, atoms, pos)) == atoms.subrange(pos, atoms.len() as int),
        forall|i: int| 0 <= i < toks_from(trie, atoms, pos).len() ==> match #[trigger] toks_from(trie, atoms, pos)[i] {
            EncTok::Template(id) => id < templates.len(),
            EncTok::LiteralAtom(a) => atoms.contains(a),
        },
    decreases atoms.len() - pos,
{
    if pos == atoms.len() {
        assert(atoms.subrange(pos, pos) =~= Seq::<u32>::empty());
    } else {
        lemma_next_pos(trie, templates, atoms, pos);
        let np = next_pos(trie, atoms, pos);
        lemma_toks_from_expand(trie, templates, atoms, np);
        let t = tok_at(trie, atoms, pos);
        let rest = toks_from(trie, atoms, np);
        lemma_expand_concat(templates, seq![t], rest);
        assert(seq![t].drop_last() =~= Seq::<EncTok>::empty());
        assert(seq![t].last() == t);
        assert(expand(templates, Seq::<EncTok>::empty()) == Seq::<u32>::empty());
        assert(expand(templates, seq![t]) == expand(templates, Seq::<EncTok>::empty()) + tok_atoms(templates, t));
        assert(expand(templates, seq![t]) =~= tok_atoms(templates, t));
        assert(atoms.subrange(pos, atoms.len() as int) =~= atoms.subrange(pos, np) + atoms.subrange(np, atoms.len() as int));
        let all = toks_from(trie, atoms, pos);
        assert(all == seq![t] + rest);
        assert forall|i: int| 0 <= i < all.len() implies match #[trigger] all[i] {
            EncTok::Template(id) => id < templates.len(),
            EncTok::LiteralAtom(a) => atoms.contains(a),
        } by {
            if i == 0 {
                if t is LiteralAtom {
                    lemma_longest_sound(trie, templates, atoms, pos);
                    assert(atoms[pos] == t->LiteralAtom_0);
                }
            } else {
                assert(all[i] == rest[i - 1]);
            }
        }
    }
}

/// Lossless in memory: encoding the atoms and slots of a tokenized text, then
/// decoding, gives the text back; the tokens name only known templates and atoms.
pub proof fn lemma_round_trip(
    intr: &Interner,
    templates: Seq<Template>,
    trie: &Trie,
    atoms: Seq<u32>,
    slots: Seq<SlotValue>,
    text: Seq<char>,
)
    requires
        trie.wf(),
        trie.sound_for(templates),
        spells(intr, atoms, slots, text),
    ensures
        toks_known(intr, templates, toks_from(trie, atoms, 0)),
        render(intr, expand(templates, toks_from(trie, atoms, 0)), slot_texts(intr, slots)) == text,
{
    lemma_toks_from_expand(trie, templates, atoms, 0);
    assert(atoms.subrange(0, atoms.len() as int) =~= atoms);
    let toks = toks_from(trie, atoms, 0);
    assert forall|i: int| 0 <= i < toks.len() implies match #[trigger] toks[i] {
        EncTok::Template(id) => id < templates.len(),
        EncTok::LiteralAtom(a) => a < intr.atoms().len(),
    } by {
        if toks[i] is LiteralAtom {
            let a = toks[i]->LiteralAtom_0;
            assert(atoms.contains(a));
            let k = choose|k: int| 0 <= k < atoms.len() && atoms[k] == a;
            assert(atoms_known(intr, atoms));
            assert(atoms[k] < intr.atoms().len());
        }
    }
}

/// Slot conservation: decoding the encoding of a tokenized text consumes exactly the
/// slot values the tokenizer produced.
pub proof fn lemma_slot_conservation(
    intr: &Interner,
    templates: Seq<Template>,
    trie: &Trie,
    atoms: Seq<u32>,
    slots: Seq<SlotValue>,
    text: Seq<char>,
)
    requires
        trie.wf(),
        trie.sound_for(templates),
        spells(intr, atoms, slots, text),
    ensures
        slot_total(intr, expand(templates, toks_from(trie, atoms, 0))) == slots.len(),
{
    lemma_toks_from_expand(trie, templates, atoms, 0);
    assert(atoms.subrange(0, atoms.len() as int) =~= atoms);
}

/// Wire ids give back the tokens they were made from.
pub proof fn lemma_canonical_ids(toks: Seq<EncTok>, ids: Seq<u32>, template_count: u32)
    requires
        ids.len() == toks.len(),
        forall|i: int| 0 <= i < toks.len() ==> #[trigger] ids[i] as int == token_id(toks[i], template_count),
        forall|i: int| 0 <= i < toks.len() ==> (#[trigger] toks[i] matches EncTok::Template(t) ==> t < template_count),
    ensures
        toks_of_ids(ids, template_count) == toks,
{
    assert forall|i: int| 0 <= i < toks.len() implies #[trigger] toks_of_ids(ids, template_count)[i] == toks[i] by {
        assert(toks_of_ids(ids, template_count)[i] == token_of_id_spec(ids[i], template_count));
    }
    assert(toks_of_ids(ids, template_count) =~= toks);
}

/// Lossless through the wire format: the wire ids and slot strings of the encoding of
/// a tokenized text decode to the text.
pub proof fn lemma_round_trip_canonical(
    intr: &Interner,
    templates: Seq<Template>,
    trie: &Trie,
    atoms: Seq<u32>,
    slots: Seq<SlotValue>,
    text: Seq<char>,
    ids: Seq<u32>,
    strs: Seq<String>,
)
    requires
        trie.wf(),
        trie.sound_for(templates),
        templates.len() <= u32::MAX,
        spells(intr, atoms, slots, text),
        ids.len() == toks_from(trie, atoms, 0).len(),
        forall|i: int| 0 <= i < ids.len() ==> #[trigger] ids[i] as int == token_id(
            toks_from(trie, atoms, 0)[i],
            templates.len() as u32,
        ),
        string_views(strs) == slot_texts(intr, slots),
    ensures
        toks_of_ids(ids, templates.len() as u32) == toks_from(trie, atoms, 0),
        render(intr, expand(templates, toks_of_ids(ids, templates.len() as u32)), string_views(strs)) == text,
{
    lemma_round_trip(intr, templates, trie, atoms, slots, text);
    lemma_toks_from_expand(trie, templates, atoms, 0);
    lemma_canonical_ids(toks_from(trie, atoms, 0), ids, templates.len() as u32);
}

/// Determinism: two encodings of the same input against the same trie agree in
/// tokens, slots and counters, and so in their wire bytes.
pub proof fn lemma_deterministic(
    trie: &Trie,
    atoms: Seq<u32>,
    slots: Seq<SlotValue>,
    toks1: Seq<EncTok>,
    slots1: Seq<SlotValue>,
    stats1: EncodeStats,
    toks2: Seq<EncTok>,
    slots2: Seq<SlotValue>,
    stats2: EncodeStats,
    ids1: Seq<u32>,
    ids2: Seq<u32>,
    strs1: Seq<String>,
    strs2: Seq<String>,
    template_count: u32,
)
    requires
        toks1 == toks_from(trie, atoms, 0),
        slots1 == slots,
        stats1 == stats_spec(trie, atoms),
        toks2 == toks_from(trie, atoms, 0),
        slots2 == slots,
        stats2 == stats_spec(trie, atoms),
        ids1.len() == toks1.len(),
        ids2.len() == toks2.len(),
        forall|i: int| 0 <= i < ids1.len() ==> #[trigger] ids1[i] as int == token_id(toks1[i], template_count),
        forall|i: int| 0 <= i < ids2.len() ==> #[trigger] ids2[i] as int == token_id(toks2[i], template_count),
        string_views(strs1) == string_views(strs2),
    ensures
        toks1 == toks2,
        slots1 == slots2,
        stats1 == stats2,
        ids1 == ids2,
        canonical_bytes(ids1, utf8_views(strs1)) == canonical_bytes(ids2, utf8_views(strs2)),
{
    assert(ids1 =~= ids2);
    assert(string_views(strs1).len() == strs1.len());
    assert(string_views(strs2).len() == strs2.len());
    assert forall|k: int| 0 <= k < strs1.len() implies #[trigger] utf8_views(strs1)[k] == utf8_views(strs2)[k] by {
        assert(string_views(strs1)[k] == strs1[k]@);
        assert(string_views(strs2)[k] == strs2[k]@);
    }
    assert(utf8_views(strs1) =~= utf8_views(strs2));
}

/// No-match fallback: where no template spells the atoms at any position, every atom
/// becomes one literal token, in order.
pub proof fn lemma_no_match_literals(trie: &Trie, templates: Seq<Template>, atoms: Seq<u32>, pos: int)
    requires
        trie.wf(),
        trie.sound_for(templates),
        0 <= pos <= atoms.len(),
        forall|p: int, t: int|
            0 <= p < atoms.len() && 0 <= t < templates.len() && 1 <= templates[t].atoms@.len()
                && p + templates[t].atoms@.len() <= atoms.len() ==> #[trigger] atoms.subrange(
                p,
                p + templates[t].atoms@.len(),
            ) != #[trigger] templates[t].atoms@,
    ensures
        toks_from(trie, atoms, pos) == atoms.subrange(pos, atoms.len() as int).map_values(
            |a: u32| EncTok::LiteralAtom(a),
        ),
    decreases atoms.len() - pos,
{
    if pos == atoms.len() {
        assert(atoms.subrange(pos, pos).map_values(|a: u32| EncTok::LiteralAtom(a)) =~= Seq::<EncTok>::empty());
    } else {
        lemma_longest_sound(trie, templates, atoms, pos);
        let m = trie.longest(atoms, pos);
        if m.1 >= 0 {
            let t = m.1;
            assert(atoms.subrange(pos, pos + templates[t].atoms@.len()) == templates[t].atoms@);
            assert(false);
        }
        lemma_no_match_literals(trie, templates, atoms, pos + 1);
        assert(atoms.subrange(pos, atoms.len() as int).map_values(|a: u32| EncTok::LiteralAtom(a))
            =~= seq![EncTok::LiteralAtom(atoms[pos])] + atoms.subrange(pos + 1, atoms.len() as int).map_values(
            |a: u32| EncTok::LiteralAtom(a),
        ));
    }
}

/// Longest match: where a template spells the atoms at `pos`, the token emitted there
/// is a template hit that covers at least those atoms and spells what it covers.
pub proof fn lemma_longest_match(trie: &Trie, templates: Seq<Template>, atoms: Seq<u32>, pos: int, t: int)
    requires
        trie.wf(),
        trie.sound_for(templates),
        trie.exact_for(templates),
        0 <= pos,
        0 <= t < templates.len(),
        1 <= templates[t].atoms@.len(),
        pos + templates[t].atoms@.len() <= atoms.len(),
        atoms.subrange(pos, pos + templates[t].atoms@.len()) == templates[t].atoms@,
    ensures
        tok_at(trie, atoms, pos) is Template,
        next_pos(trie, atoms, pos) >= pos + templates[t].atoms@.len(),
        tok_atoms(templates, tok_at(trie, atoms, pos)) == atoms.subrange(pos, next_pos(trie, atoms, pos)),
{
    lemma_longest_complete(trie, templates, atoms, pos, t);
    lemma_longest_sound(trie, templates, atoms, pos);
    lemma_next_pos(trie, templates, atoms, pos);
}

/// Wire bytes round trip: the canonical bytes of ids and slot strings are read back
/// as those ids, and as strings with the same characters.
pub proof fn lemma_wire_round_trip(ids: Seq<u32>, strs: Seq<String>, strs2: Seq<String>)
    requires
        ids.len() <= u64::MAX,
        strs.len() <= u64::MAX,
        forall|k: int| 0 <= k < strs.len() ==> (#[trigger] utf8_views(strs)[k]).len() <= u32::MAX,
        utf8_views(strs2) == utf8_views(strs),
    ensures
        encodes(canonical_bytes(ids, utf8_views(strs)), ids, utf8_views(strs)),
        string_views(strs2) == string_views(strs),
{
    broadcast use vstd::utf8::encode_utf8_valid_utf8, vstd::utf8::encode_utf8_decode_utf8;

    assert(encodable(ids, utf8_views(strs)));
    assert(strs2.len() == strs.len()) by {
        assert(utf8_views(strs2).len() == strs2.len());
        assert(utf8_views(strs).len() == strs.len());
    }
    assert forall|k: int| 0 <= k < strs.len() implies #[trigger] string_views(strs2)[k] == string_views(strs)[k] by {
        assert(utf8_views(strs2)[k] == utf8_views(strs)[k]);
        assert(vstd::utf8::decode_utf8(vstd::utf8::encode_utf8(strs2[k]@)) == strs2[k]@);
        assert(vstd::utf8::decode_utf8(vstd::utf8::encode_utf8(strs[k]@)) == strs[k]@);
    }
    assert(string_views(strs2) =~= string_views(strs));
}

} // verus!
