//! The encoder bundle: interner, templates and the trie built from them.

use vstd::prelude::*;
use crate::decode;
use crate::encode::{self, EncodeResult};
use crate::interner::{Interner, SlotValue};
use crate::render::{expand, render, slot_texts, slots_known, templates_known, toks_known};
use crate::template::Template;
use crate::tokenize::{self, all_known, extends, grows, pieces_from, sentinels_known, spells, tokens_are, StructuredInput, TokenizeConfig};
use crate::trie::{total_atoms, Trie};

verus! {

/// Templates, the interner their atom ids refer to, and the trie over them.
pub struct Encoder {
    pub interner: Interner,
    pub templates: Vec<Template>,
    pub trie: Trie,
}

impl Encoder {
    /// The parts fit together: the trie is sound for the templates, whose atoms the
    /// interner knows.
    pub open spec fn wf(&self) -> bool {
        &&& self.interner.wf()
        &&& self.trie.wf()
        &&& self.trie.sound_for(self.templates@)
        &&& self.trie.exact_for(self.templates@)
        &&& templates_known(&self.interner, self.templates@)
    }

    pub fn from_templates(interner: Interner, templates: Vec<Template>) -> (r: Encoder)
        requires
            interner.wf(),
            templates_known(&interner, templates@),
            templates@.len() <= i32::MAX,
            total_atoms(templates@) < u32::MAX,
        ensures
            r.wf(),
            r.interner == interner,
            r.templates@ == templates@,
    {
        let trie = Trie::build(templates.as_slice());
        Encoder { interner, templates, trie }
    }

    /// Tokenizes with the bundle's interner, which may grow.
    pub fn tokenize(&mut self, text: &str, cfg: &TokenizeConfig) -> (r: Option<StructuredInput>)
        requires
            old(self).wf(),
        ensures
            final(self).wf(),
            final(self).templates@ == old(self).templates@,
            final(self).trie == old(self).trie,
            extends(&old(self).interner, &final(self).interner),
            r matches Some(si) ==> spells(&final(self).interner, si.atoms@, si.slots@, text@),
            r matches Some(si) ==> tokens_are(&final(self).interner, si.atoms@, si.slots@, pieces_from(cfg, text@, 0)),
            !old(self).interner.frozen_spec() && old(self).interner.payloads().len() + 2 * text@.len() + 1 <= u32::MAX
                && old(self).interner.atoms().len() + text@.len() + 4 <= u32::MAX ==> r is Some,
            sentinels_known(&old(self).interner) && all_known(&old(self).interner, pieces_from(cfg, text@, 0)) ==> r is Some,
            old(self).interner.frozen_spec() ==> final(self).interner.payloads() == old(self).interner.payloads()
                && final(self).interner.atoms() == old(self).interner.atoms(),
            old(self).interner.frozen_spec() && !(sentinels_known(&old(self).interner) && all_known(
                &old(self).interner,
                pieces_from(cfg, text@, 0),
            )) ==> r is None,
    {
        let ghost i0 = self.interner;
        let r = tokenize::tokenize(text, cfg, &mut self.interner);
        proof {
            assert forall|t: int, j: int|
                0 <= t < self.templates@.len() && 0 <= j < self.templates@[t].atoms@.len()
                    implies #[trigger] self.templates@[t].atoms@[j] < self.interner.atoms().len() by {
                assert(self.templates@[t].atoms@[j] < i0.atoms().len());
            }
        }
        r
    }

    /// Tokenizes against a scratch copy of the interner.
    pub fn tokenize_frozen(&self, text: &str, cfg: &TokenizeConfig) -> (r: Option<StructuredInput>)
        requires
            self.wf(),
        ensures
            r matches Some(si) ==> exists|x: Interner| #[trigger] x.wf() && grows(&self.interner, &x)
                && spells(&x, si.atoms@, si.slots@, text@) && tokens_are(&x, si.atoms@, si.slots@, pieces_from(cfg, text@, 0)),
            (!self.interner.frozen_spec() || !cfg.strict_frozen) && self.interner.payloads().len() + 2
                * text@.len() + 1 <= u32::MAX && self.interner.atoms().len() + text@.len() + 4 <= u32::MAX ==> r is Some,
            sentinels_known(&self.interner) && all_known(&self.interner, pieces_from(cfg, text@, 0)) ==> r is Some,
    {
        tokenize::tokenize_frozen(text, cfg, &self.interner)
    }

    pub fn encode_stream(&self, input: &StructuredInput) -> (r: EncodeResult)
        requires
            self.wf(),
        ensures
            r.toks@ == encode::toks_from(&self.trie, input.atoms@, 0),
            r.slots@ == input.slots@,
            r.stats == encode::stats_spec(&self.trie, input.atoms@),
            expand(self.templates@, r.toks@) == input.atoms@,
    {
        encode::encode_stream(&self.trie, self.templates.as_slice(), input)
    }

    pub fn decode(&self, encoded: &EncodeResult) -> (r: String)
        requires
            self.wf(),
            toks_known(&self.interner, self.templates@, encoded.toks@),
            slots_known(&self.interner, encoded.slots@),
        ensures
            r@ == render(
                &self.interner,
                expand(self.templates@, encoded.toks@),
                slot_texts(&self.interner, encoded.slots@),
            ),
    {
        decode::decode(&self.interner, self.templates.as_slice(), encoded)
    }
}

} // verus!
