//! Whole-pipeline checks on a text.

use vstd::prelude::*;
use vstd::string::StringExecFns;
use crate::bundle::Encoder;
use crate::laws::lemma_round_trip;
use crate::tokenize::{all_known, pieces_from, sentinels_known, TokenizeConfig};

verus! {

/// Tokenizes, encodes and decodes `text`, and reports whether the text came back.
/// It does whenever tokenization succeeds; it is false when tokenization fails, as it
/// does on a frozen interner that lacks an entry the text needs.
pub fn verify_lossless(encoder: &mut Encoder, text: &str, cfg: &TokenizeConfig) -> (r: bool)
    requires
        old(encoder).wf(),
    ensures
        final(encoder).wf(),
        !old(encoder).interner.frozen_spec() && old(encoder).interner.payloads().len() + 2 * text@.len() + 1
            <= u32::MAX && old(encoder).interner.atoms().len() + text@.len() + 4 <= u32::MAX ==> r,
        sentinels_known(&old(encoder).interner) && all_known(&old(encoder).interner, pieces_from(cfg, text@, 0)) ==> r,
        old(encoder).interner.frozen_spec() && !(sentinels_known(&old(encoder).interner) && all_known(
            &old(encoder).interner,
            pieces_from(cfg, text@, 0),
        )) ==> !r,
{
    let input = match encoder.tokenize(text, cfg) {
        Some(i) => i,
        None => {
            return false;
        },
    };
    let encoded = encoder.encode_stream(&input);
    proof {
        lemma_round_trip(&encoder.interner, encoder.templates@, &encoder.trie, input.atoms@, input.slots@, text@);
    }
    let decoded = encoder.decode(&encoded);
    let expected = String::from_str(text);
    decoded == expected
}

} // verus!
