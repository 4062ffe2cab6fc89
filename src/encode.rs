//! Encoding: structured input to a compact token stream.

use vstd::prelude::*;
use crate::interner::{AtomId, SlotValue};
use crate::render::{expand, tok_atoms};
use crate::template::Template;
use crate::tokenize::StructuredInput;
use crate::trie::{lemma_longest_sound, Trie};

verus! {

/// One output token: a template hit or a literal atom.
#[derive(Clone, Copy, Debug, PartialEq, Eq, Structural)]
pub enum EncTok {
    Template(u32),
    LiteralAtom(AtomId),
}

/// Counters gathered while encoding; they do not affect the output.
#[derive(Clone, Copy, Debug, PartialEq, Eq, Structural)]
pub struct EncodeStats {
    pub positions: u64,
    pub trie_steps: u64,
    pub template_hits: u64,
    pub literal_emits: u64,
}

/// Tokens, the slot values that fill them, and statistics.
#[derive(Clone, Debug)]
pub struct EncodeResult {
    pub toks: Vec<EncTok>,
    pub slots: Vec<SlotValue>,
    pub stats: EncodeStats,
}

/// The position after the token emitted at `pos` (never past the end).
pub open spec fn next_pos(trie: &Trie, atoms: Seq<u32>, pos: int) -> int {
    let m = trie.longest(atoms, pos);
    let np = if m.1 >= 0 {
        pos + if m.0 >= 1 { m.0 } else { 1 }
    } else {
        pos + 1
    };
    if np > atoms.len() { atoms.len() as int } else { np }
}

/// The token emitted at `pos`: the longest template match, else the atom itself.
pub open spec fn tok_at(trie: &Trie, atoms: Seq<u32>, pos: int) -> EncTok {
    let m = trie.longest(atoms, pos);
    if m.1 >= 0 {
        EncTok::Template(m.1 as u32)
    } else {
        EncTok::LiteralAtom(atoms[pos])
    }
}

/// The tokens emitted from `pos` to the end.
pub open spec fn toks_from(trie: &Trie, atoms: Seq<u32>, pos: int) -> Seq<EncTok>
    decreases atoms.len() - pos,
{
    if pos < 0 || pos >= atoms.len() || next_pos(trie, atoms, pos) <= pos {
        Seq::empty()
    } else {
        seq![tok_at(trie, atoms, pos)] + toks_from(trie, atoms, next_pos(trie, atoms, pos))
    }
}

/// The exact counters gathered from `pos` to the end: positions visited, edge
/// lookups, template hits and literal emits.
pub open spec fn counts_from(trie: &Trie, atoms: Seq<u32>, pos: int) -> (int, int, int, int)
    decreases atoms.len() - pos,
{
    if pos < 0 || pos >= atoms.len() || next_pos(trie, atoms, pos) <= pos {
        (0, 0, 0, 0)
    } else {
        let m = trie.longest(atoms, pos);
        let rest = counts_from(trie, atoms, next_pos(trie, atoms, pos));
        (
            rest.0 + 1,
            rest.1 + m.2,
            rest.2 + if m.1 >= 0 { 1int } else { 0int },
            rest.3 + if m.1 >= 0 { 0int } else { 1int },
        )
    }
}

/// The counters of a whole encoding; lookups saturate at `u64::MAX`.
pub open spec fn stats_spec(trie: &Trie, atoms: Seq<u32>) -> EncodeStats {
    let c = counts_from(trie, atoms, 0);
    EncodeStats {
        positions: c.0 as u64,
        trie_steps: if c.1 > u64::MAX { u64::MAX } else { c.1 as u64 },
        template_hits: c.2 as u64,
        literal_emits: c.3 as u64,
    }
}

pub proof fn lemma_next_pos(trie: &Trie, templates: Seq<Template>, atoms: Seq<u32>, pos: int)
    requires
        trie.wf(),
        trie.sound_for(templates),
        0 <= pos < atoms.len(),
    ensures
        pos < next_pos(trie, atoms, pos) <= atoms.len(),
        tok_atoms(templates, tok_at(trie, atoms, pos)) == atoms.subrange(pos, next_pos(trie, atoms, pos)),
        tok_at(trie, atoms, pos) matches EncTok::Template(t) ==> t < templates.len(),
        ({
            let c = counts_from(trie, atoms, pos);
            let r = counts_from(trie, atoms, next_pos(trie, atoms, pos));
            &&& c.0 == r.0 + 1
            &&& c.2 + c.3 == r.2 + r.3 + 1
            &&& c.1 >= r.1
        }),
{
    lemma_longest_sound(trie, templates, atoms, pos);
    let m = trie.longest(atoms, pos);
    if m.1 < 0 {
        assert(atoms.subrange(pos, pos + 1) =~= seq![atoms[pos]]);
    }
}

proof fn lemma_counts_bounded(trie: &Trie, templates: Seq<Template>, atoms: Seq<u32>, pos: int)
    requires
        trie.wf(),
        trie.sound_for(templates),
        0 <= pos <= atoms.len(),
    ensures
        0 <= counts_from(trie, atoms, pos).0 <= atoms.len() - pos,
        0 <= counts_from(trie, atoms, pos).2 + counts_from(trie, atoms, pos).3 <= atoms.len() - pos,
        0 <= counts_from(trie, atoms, pos).2,
        0 <= counts_from(trie, atoms, pos).3,
        0 <= counts_from(trie, atoms, pos).1,
    decreases atoms.len() - pos,
{
    if pos < atoms.len() {
        lemma_next_pos(trie, templates, atoms, pos);
        lemma_counts_bounded(trie, templates, atoms, next_pos(trie, atoms, pos));
    }
}

/// Encodes `input` greedily: at each position the longest template match is emitted,
/// else the atom itself. The output slots are the input slots, in order.
pub fn encode_stream(trie: &Trie, templates: &[Template], input: &StructuredInput) -> (r: EncodeResult)
    requires
        trie.wf(),
        trie.sound_for(templates@),
    ensures
        r.toks@ == toks_from(trie, input.atoms@, 0),
        r.slots@ == input.slots@,
        r.stats == stats_spec(trie, input.atoms@),
        expand(templates@, r.toks@) == input.atoms@,
{
    let ghost tpl = templates@;
    let ghost atoms = input.atoms@;
    let mut slot_cursor: usize = 0;
    let mut out_slots: Vec<SlotValue> = Vec::new();
    let mut toks: Vec<EncTok> = Vec::new();
    let mut positions: u64 = 0;
    let mut trie_steps: u64 = 0;
    let mut template_hits: u64 = 0;
    let mut literal_emits: u64 = 0;
    let mut pos: usize = 0;
    let n = input.atoms.len();
    proof {
        lemma_counts_bounded(trie, tpl, atoms, 0);
        assert(atoms.take(0) =~= Seq::<u32>::empty());
        assert(input.slots@.take(0) =~= Seq::<SlotValue>::empty());
    }
    while pos < n
        invariant
            trie.wf(),
            trie.sound_for(tpl),
            tpl == templates@,
            atoms == input.atoms@,
            n == atoms.len(),
            pos <= n,
            slot_cursor <= input.slots@.len(),
            out_slots@ == input.slots@.take(slot_cursor as int),
            toks@ + toks_from(trie, atoms, pos as int) == toks_from(trie, atoms, 0),
            expand(tpl, toks@) == atoms.take(pos as int),
            ({
                let c0 = counts_from(trie, atoms, 0);
                let c = counts_from(trie, atoms, pos as int);
                &&& positions + c.0 == c0.0
                &&& template_hits + c.2 == c0.2
                &&& literal_emits + c.3 == c0.3
                &&& trie_steps == if c0.1 - c.1 > u64::MAX { u64::MAX as int } else { c0.1 - c.1 }
                &&& c0.1 >= c.1
            }),
            0 <= counts_from(trie, atoms, 0).0 <= n,
            0 <= counts_from(trie, atoms, 0).2 + counts_from(trie, atoms, 0).3 <= n,
        decreases n - pos,
    {
        proof {
            lemma_longest_sound(trie, tpl, atoms, pos as int);
            lemma_next_pos(trie, tpl, atoms, pos as int);
            lemma_counts_bounded(trie, tpl, atoms, pos as int);
            lemma_counts_bounded(trie, tpl, atoms, next_pos(trie, atoms, pos as int));
        }
        let ghost p0 = pos as int;
        let ghost toks0 = toks@;
        positions = positions + 1;
        let (best_len, best_tid, steps) = trie.match_longest(&input.atoms, pos);
        trie_steps = trie_steps.saturating_add(steps as u64);
        let ghost t = tok_at(trie, atoms, pos as int);
        let ghost np = next_pos(trie, atoms, pos as int);
        if best_tid >= 0 {
            let tid = best_tid as usize;
            toks.push(EncTok::Template(tid as u32));
            template_hits = template_hits + 1;
            let sc = templates[tid].slot_count as usize;
            let mut k: usize = 0;
            while k < sc
                invariant
                    slot_cursor <= input.slots@.len(),
                    out_slots@ == input.slots@.take(slot_cursor as int),
                decreases sc - k,
            {
                if slot_cursor < input.slots.len() {
                    out_slots.push(input.slots[slot_cursor]);
                    slot_cursor = slot_cursor + 1;
                    proof {
                        assert(out_slots@ =~= input.slots@.take(slot_cursor as int));
                    }
                }
                k = k + 1;
            }
            pos = pos + if best_len >= 1 { best_len } else { 1 };
        } else {
            toks.push(EncTok::LiteralAtom(input.atoms[pos]));
            literal_emits = literal_emits + 1;
            pos = pos + 1;
        }
        proof {
            assert(pos == np);
            assert(toks@ == toks0.push(t));
            assert(toks@.drop_last() =~= toks0);
            assert(atoms.take(np) =~= atoms.take(p0) + atoms.subrange(p0, np));
            assert(toks@ + toks_from(trie, atoms, np) =~= toks0 + toks_from(trie, atoms, p0));
        }
    }
    while slot_cursor < input.slots.len()
        invariant
            slot_cursor <= input.slots@.len(),
            out_slots@ == input.slots@.take(slot_cursor as int),
        decreases input.slots@.len() - slot_cursor,
    {
        out_slots.push(input.slots[slot_cursor]);
        slot_cursor = slot_cursor + 1;
        proof {
            assert(out_slots@ =~= input.slots@.take(slot_cursor as int));
        }
    }
    proof {
        assert(out_slots@ =~= input.slots@);
        assert(atoms.take(pos as int) =~= atoms);
        assert(toks@ + toks_from(trie, atoms, pos as int) =~= toks@);
    }
    let stats = EncodeStats { positions, trie_steps, template_hits, literal_emits };
    EncodeResult { toks, slots: out_slots, stats }
}

} // verus!
