//! Tokenization: text to atoms and slot values.

use vstd::prelude::*;
use vstd::std_specs::iter::IteratorSpec;
use crate::interner::{AtomId, AtomKind, Interner, SlotValue};
use crate::render::{is_slot_atom, piece, render, slot_texts, slot_total, slots_known};

verus! {

/// Tokenizer output: the atom sequence and one slot value per slot atom, in order.
#[derive(Clone, Debug)]
pub struct StructuredInput {
    pub atoms: Vec<AtomId>,
    pub slots: Vec<SlotValue>,
}

/// `b` holds every payload and atom of `a` under the same ids.
pub open spec fn grows(a: &Interner, b: &Interner) -> bool {
    &&& a.payloads().len() <= b.payloads().len()
    &&& b.payloads().take(a.payloads().len() as int) == a.payloads()
    &&& a.atoms().len() <= b.atoms().len()
    &&& b.atoms().take(a.atoms().len() as int) == a.atoms()
}

/// `b` holds every payload and atom of `a` under the same ids, and the same frozen flag.
pub open spec fn extends(a: &Interner, b: &Interner) -> bool {
    &&& grows(a, b)
    &&& b.frozen_spec() == a.frozen_spec()
}

/// Every atom id of `atoms` is known to the interner.
pub open spec fn atoms_known(intr: &Interner, atoms: Seq<u32>) -> bool {
    forall|k: int| 0 <= k < atoms.len() ==> #[trigger] atoms[k] < intr.atoms().len()
}

/// Rendering is unchanged when the interner only grows.
pub proof fn lemma_render_extends(a: &Interner, b: &Interner, ids: Seq<u32>, st: Seq<Seq<char>>)
    requires
        a.wf(),
        grows(a, b),
        atoms_known(a, ids),
    ensures
        render(a, ids, st) == render(b, ids, st),
        slot_total(a, ids) == slot_total(b, ids),
    decreases ids.len(),
{
    if ids.len() > 0 {
        let last = ids.last();
        assert(atoms_known(a, ids.drop_last()));
        lemma_render_extends(a, b, ids.drop_last(), st);
        assert(ids[ids.len() - 1] < a.atoms().len());
        assert(b.atoms()[last as int] == b.atoms().take(a.atoms().len() as int)[last as int]);
        let pid = a.atoms()[last as int].1;
        assert(b.payloads()[pid as int] == b.payloads().take(a.payloads().len() as int)[pid as int]);
    }
}

/// Slot texts are unchanged when the interner only grows.
pub proof fn lemma_slot_texts_extends(a: &Interner, b: &Interner, slots: Seq<SlotValue>)
    requires
        grows(a, b),
        slots_known(a, slots),
    ensures
        slot_texts(a, slots) == slot_texts(b, slots),
{
    assert forall|k: int| 0 <= k < slots.len() implies #[trigger] slot_texts(a, slots)[k] == slot_texts(b, slots)[k] by {
        let pid = slots[k].payload;
        assert(b.payloads()[pid as int] == b.payloads().take(a.payloads().len() as int)[pid as int]);
    }
    assert(slot_texts(a, slots) =~= slot_texts(b, slots));
}

/// `atoms` and `slots` spell `text` against `intr`, one slot value per slot atom.
pub open spec fn spells(intr: &Interner, atoms: Seq<u32>, slots: Seq<SlotValue>, text: Seq<char>) -> bool {
    &&& atoms_known(intr, atoms)
    &&& slots_known(intr, slots)
    &&& render(intr, atoms, slot_texts(intr, slots)) == text
    &&& slot_total(intr, atoms) == slots.len()
}

/// Interns the atom for one classified piece of text and appends it, with its slot
/// value when `kind` is a slot kind.
fn push_piece(
    intr: &mut Interner,
    kind: AtomKind,
    seg: &str,
    atoms: &mut Vec<AtomId>,
    slots: &mut Vec<SlotValue>,
) -> (ok: bool)
    requires
        old(intr).wf(),
        atoms_known(old(intr), old(atoms)@),
        slots_known(old(intr), old(slots)@),
        slot_total(old(intr), old(atoms)@) == old(slots)@.len(),
    ensures
        final(intr).wf(),
        extends(old(intr), final(intr)),
        final(intr).payloads().len() <= old(intr).payloads().len() + 2,
        final(intr).atoms().len() <= old(intr).atoms().len() + 1,
        !old(intr).frozen_spec() && old(intr).payloads().len() + 2 <= u32::MAX
            && old(intr).atoms().len() + 1 <= u32::MAX ==> ok,
        ok ==> atoms_known(final(intr), final(atoms)@),
        ok ==> slots_known(final(intr), final(slots)@),
        ok ==> slot_total(final(intr), final(atoms)@) == final(slots)@.len(),
        ok ==> render(final(intr), final(atoms)@, slot_texts(final(intr), final(slots)@)) == render(
            old(intr),
            old(atoms)@,
            slot_texts(old(intr), old(slots)@),
        ) + seg@,
        ok ==> final(atoms)@.len() == old(atoms)@.len() + 1,
        ok ==> final(atoms)@.take(old(atoms)@.len() as int) == old(atoms)@,
        ok ==> old(slots)@.len() <= final(slots)@.len() && final(slots)@.take(old(slots)@.len() as int) == old(slots)@,
        ok ==> atom_is_piece(final(intr), final(atoms)@, final(slots)@, old(atoms)@.len() as int, (kind, seg@)),
        piece_known(old(intr), (kind, seg@)) ==> ok,
        old(intr).frozen_spec() ==> final(intr).payloads() == old(intr).payloads() && final(intr).atoms() == old(intr).atoms(),
        ok ==> piece_known(final(intr), (kind, seg@)),
{
    let ghost i0 = *intr;
    let ghost a0 = atoms@;
    let ghost s0 = slots@;
    proof {
        if piece_known(&i0, (kind, seg@)) {
            if kind.is_slot_spec() {
                lemma_known_atom_ids(&i0, kind, Seq::empty());
            } else {
                lemma_known_atom_ids(&i0, kind, seg@);
            }
        }
    }
    if kind.is_slot() {
        let blank = String::new();
        let empty = intr.intern_payload(blank.as_str());
        let ghost i1 = *intr;
        let e = match empty {
            Some(e) => e,
            None => {
                proof {
                    assert(intr.payloads().take(i0.payloads().len() as int) =~= i0.payloads());
                    assert(intr.atoms().take(i0.atoms().len() as int) =~= i0.atoms());
                }
                return false;
            },
        };
        let aid = intr.intern_atom(kind, e);
        let ghost i2 = *intr;
        let aid = match aid {
            Some(a) => a,
            None => {
                proof {
                    assert(intr.payloads().take(i0.payloads().len() as int) =~= i0.payloads());
                    assert(intr.atoms().take(i0.atoms().len() as int) =~= i0.atoms());
                }
                return false;
            },
        };
        let pid = intr.intern_payload(seg);
        let pid = match pid {
            Some(p) => p,
            None => {
                proof {
                    assert(intr.payloads().take(i0.payloads().len() as int) =~= i0.payloads());
                    assert(intr.atoms().take(i0.atoms().len() as int) =~= i0.atoms());
                }
                return false;
            },
        };
        atoms.push(aid);
        slots.push(SlotValue { kind, payload: pid });
        proof {
            assert(i1.payloads().take(i0.payloads().len() as int) =~= i0.payloads());
            assert(intr.payloads().take(i0.payloads().len() as int) =~= i0.payloads());
            assert(intr.atoms().take(i0.atoms().len() as int) =~= i0.atoms());
            assert(extends(&i0, intr));
            lemma_render_extends(&i0, intr, a0, slot_texts(&i0, s0));
            lemma_slot_texts_extends(&i0, intr, s0);
            crate::decode::lemma_render_push(intr, a0, aid, slot_texts(intr, slots@));
            let st = slot_texts(intr, slots@);
            assert(st =~= slot_texts(intr, s0).push(seg@));
            lemma_render_prefix_texts(intr, a0, slot_texts(intr, s0), seg@);
            assert(atoms@ == a0.push(aid));
            assert forall|k: int| 0 <= k < atoms@.len() implies #[trigger] atoms@[k] < intr.atoms().len() by {
                if k < a0.len() {
                    assert(atoms_known(&i0, a0));
                    assert(a0[k] < i0.atoms().len());
                }
            }
            assert forall|k: int| 0 <= k < slots@.len() implies #[trigger] slots@[k].payload < intr.payloads().len() by {
                if k < s0.len() {
                    assert(s0[k].payload < i0.payloads().len());
                }
            }
            assert(atoms@.take(a0.len() as int) =~= a0);
            assert(slots@.take(s0.len() as int) =~= s0);
            assert(i2.atoms()[aid as int] == (kind, e));
            assert(intr.atoms()[aid as int] == i2.atoms()[aid as int]) by {
                assert(intr.atoms() == i2.atoms());
            }
            assert(i1.payloads()[e as int] == Seq::<char>::empty());
            assert(intr.payloads()[e as int] == i1.payloads()[e as int]) by {
                assert(intr.payloads().take(i1.payloads().len() as int) =~= i1.payloads());
                assert(i2.payloads() == i1.payloads());
            }
            lemma_render_extends(&i0, intr, a0, Seq::empty());
            assert(slot_total(intr, atoms@.take(a0.len() as int)) == s0.len());
        }
        true
    } else {
        let pid = intr.intern_payload(seg);
        let pid = match pid {
            Some(p) => p,
            None => {
                proof {
                    assert(intr.payloads().take(i0.payloads().len() as int) =~= i0.payloads());
                    assert(intr.atoms().take(i0.atoms().len() as int) =~= i0.atoms());
                }
                return false;
            },
        };
        let ghost i1 = *intr;
        let aid = intr.intern_atom(kind, pid);
        let aid = match aid {
            Some(a) => a,
            None => {
                proof {
                    assert(intr.payloads().take(i0.payloads().len() as int) =~= i0.payloads());
                    assert(intr.atoms().take(i0.atoms().len() as int) =~= i0.atoms());
                }
                return false;
            },
        };
        atoms.push(aid);
        proof {
            assert(intr.payloads().take(i0.payloads().len() as int) =~= i0.payloads());
            assert(intr.atoms().take(i0.atoms().len() as int) =~= i0.atoms());
            assert(extends(&i0, intr));
            lemma_render_extends(&i0, intr, a0, slot_texts(&i0, s0));
            lemma_slot_texts_extends(&i0, intr, s0);
            crate::decode::lemma_render_push(intr, a0, aid, slot_texts(intr, slots@));
            assert forall|k: int| 0 <= k < atoms@.len() implies #[trigger] atoms@[k] < intr.atoms().len() by {
                if k < a0.len() {
                    assert(atoms_known(&i0, a0));
                    assert(a0[k] < i0.atoms().len());
                }
            }
            assert forall|k: int| 0 <= k < slots@.len() implies #[trigger] slots@[k].payload < intr.payloads().len() by {
                assert(s0[k].payload < i0.payloads().len());
            }
            assert(atoms@.take(a0.len() as int) =~= a0);
            assert(slots@.take(s0.len() as int) =~= s0);
            assert(intr.atoms()[aid as int] == (kind, pid));
            assert(intr.payloads()[pid as int] == i1.payloads()[pid as int]);
        }
        true
    }
}

/// Rendering reads only the slot texts it consumes: adding one at the end changes nothing.
proof fn lemma_render_prefix_texts(intr: &Interner, ids: Seq<u32>, st: Seq<Seq<char>>, extra: Seq<char>)
    requires
        slot_total(intr, ids) <= st.len(),
    ensures
        render(intr, ids, st) == render(intr, ids, st.push(extra)),
    decreases ids.len(),
{
    if ids.len() > 0 {
        lemma_render_prefix_texts(intr, ids.drop_last(), st, extra);
    }
}

/// Tokenizer settings. `stopwords` holds lower-case words that become literal atoms;
/// `None` turns that off.
#[derive(Clone, Debug)]
pub struct TokenizeConfig {
    pub ws_run: bool,
    pub strict_frozen: bool,
    pub stopwords: Option<Vec<String>>,
}

impl Default for TokenizeConfig {
    fn default() -> (r: Self)
        ensures
            !r.ws_run,
            !r.strict_frozen,
            r.stopwords is None,
    {
        TokenizeConfig { ws_run: false, strict_frozen: false, stopwords: None }
    }
}

/// The built-in stopwords, lower case.
pub open spec fn stopword_strs() -> Seq<&'static str> {
    seq![
        "the", "a", "an", "and", "or", "but", "if", "then",
        "else", "when", "while", "as", "of", "to", "in", "on",
        "at", "by", "for", "with", "from", "into", "over", "under",
        "is", "are", "was", "were", "be", "been", "being", "do",
        "does", "did", "doing", "have", "has", "had", "having", "will",
        "would", "can", "could", "may", "might", "i", "you", "he",
        "she", "it", "we", "they", "me", "him", "her", "us",
        "them", "this", "that", "these", "those", "there", "here",
    ]
}

/// The characters of the built-in stopwords.
pub open spec fn default_stopword_list() -> Seq<Seq<char>> {
    stopword_strs().map_values(|w: &str| w@)
}

/// The built-in stopword list.
pub fn default_stopwords() -> (r: Vec<String>)
    ensures
        r@.map_values(|w: String| w@) == default_stopword_list(),
{
    let words: [&str; 63] = [
        "the", "a", "an", "and", "or", "but", "if", "then",
        "else", "when", "while", "as", "of", "to", "in", "on",
        "at", "by", "for", "with", "from", "into", "over", "under",
        "is", "are", "was", "were", "be", "been", "being", "do",
        "does", "did", "doing", "have", "has", "had", "having", "will",
        "would", "can", "could", "may", "might", "i", "you", "he",
        "she", "it", "we", "they", "me", "him", "her", "us",
        "them", "this", "that", "these", "those", "there", "here",
    ];
    let mut r: Vec<String> = Vec::new();
    let mut k: usize = 0;
    while k < 63
        invariant
            k <= 63,
            words@ == stopword_strs(),
            r@.map_values(|w: String| w@) == default_stopword_list().take(k as int),
        decreases 63 - k,
    {
        let ghost r0 = r@;
        let w = words[k].to_owned();
        assert(w@ == default_stopword_list()[k as int]);
        r.push(w);
        k = k + 1;
        assert(r@.map_values(|w: String| w@) =~= r0.map_values(|w: String| w@).push(default_stopword_list()[k - 1]));
        assert(default_stopword_list().take(k as int) =~= default_stopword_list().take(k - 1).push(default_stopword_list()[k - 1]));
    }
    assert(default_stopword_list().take(63) =~= default_stopword_list());
    r
}

impl TokenizeConfig {
    pub fn with_default_stopwords() -> (r: Self)
        ensures
            !r.ws_run,
            !r.strict_frozen,
            r.stopwords matches Some(v) && v@.map_values(|w: String| w@) == default_stopword_list(),
    {
        TokenizeConfig { ws_run: false, strict_frozen: false, stopwords: Some(default_stopwords()) }
    }
}

/// ASCII whitespace: space, tab, line feed, form feed, carriage return.
pub open spec fn is_ws_char(c: char) -> bool {
    c == ' ' || c == '\t' || c == '\n' || c == '\x0C' || c == '\r'
}

/// ASCII punctuation other than the apostrophe.
pub open spec fn is_punct_char(c: char) -> bool {
    let u = c as u32;
    ((0x21 <= u <= 0x2F) || (0x3A <= u <= 0x40) || (0x5B <= u <= 0x60) || (0x7B <= u <= 0x7E))
        && c != '\''
}

pub open spec fn is_num_char(c: char) -> bool {
    ('0' as u32 <= c as u32 <= '9' as u32) || c == '.'
}

fn is_ws(c: char) -> (r: bool)
    ensures
        r == is_ws_char(c),
{
    c == ' ' || c == '\t' || c == '\n' || c == '\x0C' || c == '\r'
}

fn is_punct(c: char) -> (r: bool)
    ensures
        r == is_punct_char(c),
{
    let u = c as u32;
    ((0x21 <= u && u <= 0x2F) || (0x3A <= u && u <= 0x40) || (0x5B <= u && u <= 0x60) || (0x7B <= u
        && u <= 0x7E)) && c != '\''
}

/// What `str::to_lowercase` returns.
pub uninterp spec fn lower_of(s: Seq<char>) -> Seq<char>;

/// Relies on str::to_lowercase: the result depends on the characters alone.
#[verifier::external_body]
fn lowercase(s: &str) -> (r: String)
    ensures
        r@ == lower_of(s@),
{
    s.to_lowercase()
}

/// What `char::is_uppercase` returns.
pub uninterp spec fn upper_char(c: char) -> bool;

/// Relies on char::is_uppercase: whether the character has the Uppercase property.
#[verifier::external_body]
fn is_uppercase(c: char) -> (r: bool)
    ensures
        r == upper_char(c),
{
    c.is_uppercase()
}

/// Relies on String::push: appends one character.
#[verifier::external_body]
fn push_char(s: &mut String, c: char)
    ensures
        final(s)@ == old(s)@.push(c),
{
    s.push(c)
}

/// The characters of `text`, in order.
pub(crate) fn chars_vec(text: &str) -> (r: Vec<char>)
    ensures
        r@ == text@,
{
    broadcast use vstd::string::group_string_axioms;

    let mut out: Vec<char> = Vec::new();
    let mut it = text.chars();
    loop
        invariant
            it.obeys_prophetic_iter_laws(),
            out@ + it.remaining() == text@,
            it.decrease() is Some,
        ensures
            out@ == text@,
        decreases it.decrease()->0,
    {
        let ghost rem = it.remaining();
        match it.next() {
            Some(c) => {
                out.push(c);
            },
            None => {
                assert(out@ + rem =~= out@);
                break;
            },
        }
    }
    out
}

/// The string made of `chars[start..end]`.
pub(crate) fn string_of(chars: &Vec<char>, start: usize, end: usize) -> (r: String)
    requires
        start <= end <= chars@.len(),
    ensures
        r@ == chars@.subrange(start as int, end as int),
{
    let mut r = String::new();
    let mut k = start;
    while k < end
        invariant
            start <= k <= end <= chars@.len(),
            r@ == chars@.subrange(start as int, k as int),
        decreases end - k,
    {
        push_char(&mut r, chars[k]);
        k = k + 1;
        assert(r@ =~= chars@.subrange(start as int, k as int));
    }
    r
}

/// Whether the lower-cased word is one of the configured stopwords.
pub open spec fn is_stopword(cfg: &TokenizeConfig, w: Seq<char>) -> bool {
    match cfg.stopwords {
        Some(v) => exists|k: int| 0 <= k < v@.len() && (#[trigger] v@[k])@ == lower_of(w),
        None => false,
    }
}

/// The kind of a word: numeric, stopword, capitalised, or a plain word.
pub open spec fn word_kind(cfg: &TokenizeConfig, w: Seq<char>) -> AtomKind {
    if forall|k: int| 0 <= k < w.len() ==> is_num_char(#[trigger] w[k]) {
        AtomKind::Num
    } else if is_stopword(cfg, w) {
        AtomKind::Lit
    } else if w.len() > 0 && upper_char(w[0]) {
        AtomKind::Cap
    } else {
        AtomKind::Var
    }
}

fn classify_word(cfg: &TokenizeConfig, w: &String) -> (r: AtomKind)
    ensures
        r == word_kind(cfg, w@),
{
    let chars = chars_vec(w.as_str());
    let mut all_num = true;
    let mut k: usize = 0;
    while k < chars.len()
        invariant
            k <= chars@.len(),
            chars@ == w@,
            all_num == forall|j: int| 0 <= j < k ==> is_num_char(#[trigger] chars@[j]),
        decreases chars@.len() - k,
    {
        let c = chars[k];
        if !(('0' as u32 <= c as u32 && c as u32 <= '9' as u32) || c == '.') {
            all_num = false;
        }
        k = k + 1;
    }
    if all_num {
        return AtomKind::Num;
    }
    proof {
        assert(chars@ == w@ && k == chars@.len());
    }
    if let Some(sw) = &cfg.stopwords {
        let low = lowercase(w.as_str());
        let mut j: usize = 0;
        while j < sw.len()
            invariant
                j <= sw@.len(),
                low@ == lower_of(w@),
                cfg.stopwords == Some(*sw),
                !(forall|q: int| 0 <= q < w@.len() ==> is_num_char(#[trigger] w@[q])),
                forall|q: int| 0 <= q < j ==> (#[trigger] sw@[q])@ != lower_of(w@),
            decreases sw@.len() - j,
        {
            if sw[j] == low {
                proof {
                    assert(sw@[j as int]@ == lower_of(w@));
                    let v = cfg.stopwords->0;
                    assert(v@[j as int]@ == lower_of(w@));
                    assert(0 <= j < v@.len());
                }
                return AtomKind::Lit;
            }
            j = j + 1;
        }
    }
    if chars.len() > 0 && is_uppercase(chars[0]) {
        AtomKind::Cap
    } else {
        AtomKind::Var
    }
}

/// End of the whitespace run that continues at `i`.
pub open spec fn ws_end(s: Seq<char>, i: int) -> int
    decreases s.len() - i,
{
    if 0 <= i < s.len() && is_ws_char(s[i]) {
        ws_end(s, i + 1)
    } else {
        i
    }
}

/// End of the word that continues at `i`.
pub open spec fn word_end(s: Seq<char>, i: int) -> int
    decreases s.len() - i,
{
    if 0 <= i < s.len() && !is_ws_char(s[i]) && !is_punct_char(s[i]) {
        word_end(s, i + 1)
    } else {
        i
    }
}

/// End of the piece starting at `i`: a whitespace run, one punctuation character, or a word.
pub open spec fn piece_end(s: Seq<char>, i: int) -> int {
    if is_ws_char(s[i]) {
        ws_end(s, i + 1)
    } else if is_punct_char(s[i]) {
        i + 1
    } else {
        word_end(s, i + 1)
    }
}

/// The kind of the piece starting at `i`.
pub open spec fn piece_kind(cfg: &TokenizeConfig, s: Seq<char>, i: int) -> AtomKind {
    if is_ws_char(s[i]) {
        if cfg.ws_run { AtomKind::WsRun } else { AtomKind::Ws }
    } else if is_punct_char(s[i]) {
        AtomKind::Punc
    } else {
        word_kind(cfg, s.subrange(i, piece_end(s, i)))
    }
}

/// The classified pieces of `s` from `i` on.
pub open spec fn pieces_from(cfg: &TokenizeConfig, s: Seq<char>, i: int) -> Seq<(AtomKind, Seq<char>)>
    decreases s.len() - i,
{
    if i < 0 || i >= s.len() || piece_end(s, i) <= i || piece_end(s, i) > s.len() {
        Seq::empty()
    } else {
        seq![(piece_kind(cfg, s, i), s.subrange(i, piece_end(s, i)))] + pieces_from(cfg, s, piece_end(s, i))
    }
}

/// Atom `k` stands for the piece `pc`: same kind; a fixed atom's payload is the text;
/// a slot atom has the empty payload and its slot value holds the kind and the text.
pub open spec fn atom_is_piece(
    intr: &Interner,
    atoms: Seq<u32>,
    slots: Seq<SlotValue>,
    k: int,
    pc: (AtomKind, Seq<char>),
) -> bool {
    let at = intr.atoms()[atoms[k] as int];
    &&& at.0 == pc.0
    &&& if pc.0.is_slot_spec() {
        let j = slot_total(intr, atoms.take(k)) as int;
        &&& intr.payloads()[at.1 as int] == Seq::<char>::empty()
        &&& j < slots.len()
        &&& slots[j].kind == pc.0
        &&& intr.payloads()[slots[j].payload as int] == pc.1
    } else {
        intr.payloads()[at.1 as int] == pc.1
    }
}

/// The atoms and slots are, one atom per piece, the pieces `ps`.
pub open spec fn tokens_are(intr: &Interner, atoms: Seq<u32>, slots: Seq<SlotValue>, ps: Seq<(AtomKind, Seq<char>)>) -> bool {
    &&& atoms.len() == ps.len()
    &&& forall|k: int| 0 <= k < atoms.len() ==> #[trigger] atom_is_piece(intr, atoms, slots, k, ps[k])
}

/// The interner has an atom of this kind whose payload is `text`.
pub open spec fn atom_known(intr: &Interner, kind: AtomKind, text: Seq<char>) -> bool {
    exists|i: int| 0 <= i < intr.atoms().len() && (#[trigger] intr.atoms()[i]).0 == kind && intr.payloads()[intr.atoms()[i].1 as int] == text
}

/// Everything the piece needs is already interned: its atom, and for a slot piece the
/// payload of its text.
pub open spec fn piece_known(intr: &Interner, pc: (AtomKind, Seq<char>)) -> bool {
    if pc.0.is_slot_spec() {
        atom_known(intr, pc.0, Seq::empty()) && intr.payloads().contains(pc.1)
    } else {
        atom_known(intr, pc.0, pc.1)
    }
}

proof fn lemma_piece_known_grows(a: &Interner, b: &Interner, pc: (AtomKind, Seq<char>))
    requires
        a.wf(),
        grows(a, b),
        piece_known(a, pc),
    ensures
        piece_known(b, pc),
{
    let text = if pc.0.is_slot_spec() { Seq::<char>::empty() } else { pc.1 };
    let i = choose|i: int| 0 <= i < a.atoms().len() && (#[trigger] a.atoms()[i]).0 == pc.0 && a.payloads()[a.atoms()[i].1 as int] == text;
    assert(b.atoms()[i] == b.atoms().take(a.atoms().len() as int)[i]);
    let pid = a.atoms()[i].1;
    assert(b.payloads()[pid as int] == b.payloads().take(a.payloads().len() as int)[pid as int]);
    assert(b.atoms()[i].0 == pc.0 && b.payloads()[b.atoms()[i].1 as int] == text);
    if pc.0.is_slot_spec() {
        let q = choose|q: int| 0 <= q < a.payloads().len() && a.payloads()[q] == pc.1;
        assert(b.payloads()[q] == b.payloads().take(a.payloads().len() as int)[q]);
    }
}

/// The payload id of a known text is found by interning it, and the atom with it.
pub proof fn lemma_known_atom_ids(intr: &Interner, kind: AtomKind, text: Seq<char>)
    requires
        intr.wf(),
        atom_known(intr, kind, text),
    ensures
        intr.payloads().contains(text),
        forall|pid: int| 0 <= pid < intr.payloads().len() && intr.payloads()[pid] == text ==> #[trigger] intr.atoms().contains((kind, pid as u32)),
{
    let i = choose|i: int| 0 <= i < intr.atoms().len() && (#[trigger] intr.atoms()[i]).0 == kind && intr.payloads()[intr.atoms()[i].1 as int] == text;
    let p0 = intr.atoms()[i].1;
    assert(intr.payloads()[p0 as int] == text);
    assert forall|pid: int| 0 <= pid < intr.payloads().len() && intr.payloads()[pid] == text implies #[trigger] intr.atoms().contains((kind, pid as u32)) by {
        if pid != p0 as int {
            if pid < p0 {
                assert(intr.payloads()[pid] != intr.payloads()[p0 as int]);
            } else {
                assert(intr.payloads()[p0 as int] != intr.payloads()[pid]);
            }
        }
        assert(intr.atoms()[i] == (kind, p0));
    }
}

/// Every piece is known to the interner.
pub open spec fn all_known(intr: &Interner, ps: Seq<(AtomKind, Seq<char>)>) -> bool {
    forall|k: int| 0 <= k < ps.len() ==> piece_known(intr, #[trigger] ps[k])
}

/// Pieces already produced keep their meaning as the interner grows and tokens are added.
proof fn lemma_piece_stable(
    a: &Interner,
    b: &Interner,
    atoms0: Seq<u32>,
    slots0: Seq<SlotValue>,
    atoms1: Seq<u32>,
    slots1: Seq<SlotValue>,
    k: int,
    pc: (AtomKind, Seq<char>),
)
    requires
        a.wf(),
        grows(a, b),
        atoms_known(a, atoms0),
        slots_known(a, slots0),
        0 <= k < atoms0.len(),
        atoms0.len() <= atoms1.len(),
        atoms1.take(atoms0.len() as int) == atoms0,
        slots0.len() <= slots1.len(),
        slots1.take(slots0.len() as int) == slots0,
        atom_is_piece(a, atoms0, slots0, k, pc),
    ensures
        atom_is_piece(b, atoms1, slots1, k, pc),
{
    assert(atoms1[k] == atoms0[k]);
    let aid = atoms0[k];
    assert(aid < a.atoms().len());
    assert(b.atoms()[aid as int] == b.atoms().take(a.atoms().len() as int)[aid as int]);
    let pid = a.atoms()[aid as int].1;
    assert(b.payloads()[pid as int] == b.payloads().take(a.payloads().len() as int)[pid as int]);
    assert(atoms1.take(k) =~= atoms0.take(k));
    assert(atoms_known(a, atoms0.take(k)));
    lemma_render_extends(a, b, atoms0.take(k), Seq::empty());
    if pc.0.is_slot_spec() {
        let j = slot_total(a, atoms0.take(k)) as int;
        assert(slots1[j] == slots0[j]);
        let sp = slots0[j].payload;
        assert(b.payloads()[sp as int] == b.payloads().take(a.payloads().len() as int)[sp as int]);
    }
}

/// The interner has the four slot-kind atoms, each with the empty payload.
pub open spec fn sentinels_known(intr: &Interner) -> bool {
    &&& atom_known(intr, AtomKind::Var, Seq::empty())
    &&& atom_known(intr, AtomKind::Cap, Seq::empty())
    &&& atom_known(intr, AtomKind::Num, Seq::empty())
    &&& atom_known(intr, AtomKind::WsRun, Seq::empty())
}

/// The layout a fresh interner has after its slot-kind atoms are interned: the empty
/// payload as payload 0, then `Var`, `Cap`, `Num`, `WsRun` as atoms 0 to 3.
pub open spec fn sentinel_layout(intr: &Interner) -> bool {
    &&& intr.payloads().len() >= 1
    &&& intr.payloads()[0] == Seq::<char>::empty()
    &&& intr.atoms().len() >= 4
    &&& intr.atoms()[0] == (AtomKind::Var, 0u32)
    &&& intr.atoms()[1] == (AtomKind::Cap, 0u32)
    &&& intr.atoms()[2] == (AtomKind::Num, 0u32)
    &&& intr.atoms()[3] == (AtomKind::WsRun, 0u32)
}

proof fn lemma_layout_grows(a: &Interner, b: &Interner)
    requires
        sentinel_layout(a),
        grows(a, b),
    ensures
        sentinel_layout(b),
{
    assert(b.payloads()[0] == b.payloads().take(a.payloads().len() as int)[0]);
    assert(b.atoms()[0] == b.atoms().take(a.atoms().len() as int)[0]);
    assert(b.atoms()[1] == b.atoms().take(a.atoms().len() as int)[1]);
    assert(b.atoms()[2] == b.atoms().take(a.atoms().len() as int)[2]);
    assert(b.atoms()[3] == b.atoms().take(a.atoms().len() as int)[3]);
}

/// Interns one slot-kind atom with the empty payload `e`.
fn intern_sentinel(intr: &mut Interner, kind: AtomKind, e: u32) -> (ok: bool)
    requires
        old(intr).wf(),
        e < old(intr).payloads().len(),
        old(intr).payloads()[e as int] == Seq::<char>::empty(),
    ensures
        final(intr).wf(),
        extends(old(intr), final(intr)),
        final(intr).payloads() == old(intr).payloads(),
        final(intr).atoms().len() <= old(intr).atoms().len() + 1,
        ok ==> atom_known(final(intr), kind, Seq::empty()),
        old(intr).frozen_spec() ==> final(intr).atoms() == old(intr).atoms(),
        atom_known(old(intr), kind, Seq::empty()) ==> ok && final(intr).atoms() == old(intr).atoms(),
        !old(intr).frozen_spec() && old(intr).atoms().len() < u32::MAX ==> ok,
        !atom_known(old(intr), kind, Seq::empty()) && !old(intr).frozen_spec() && old(intr).atoms().len() < u32::MAX
            ==> final(intr).atoms() == old(intr).atoms().push((kind, e)),
{
    let ghost i0 = *intr;
    proof {
        if atom_known(&i0, kind, Seq::empty()) {
            lemma_known_atom_ids(&i0, kind, Seq::empty());
        }
        if i0.atoms().contains((kind, e)) {
            let q = choose|q: int| 0 <= q < i0.atoms().len() && i0.atoms()[q] == (kind, e);
            assert(i0.atoms()[q].0 == kind && i0.payloads()[i0.atoms()[q].1 as int] == Seq::<char>::empty());
        }
    }
    let r = intr.intern_atom(kind, e);
    proof {
        assert(intr.payloads().take(i0.payloads().len() as int) =~= i0.payloads());
        assert(intr.atoms().take(i0.atoms().len() as int) =~= i0.atoms());
        if r is Some {
            let id = r->Some_0;
            assert(intr.atoms()[id as int] == (kind, e));
        }
    }
    r.is_some()
}

/// Interns the empty payload and the `Var`, `Cap`, `Num` and `WsRun` atoms, in that order.
fn intern_sentinels(intr: &mut Interner) -> (ok: bool)
    requires
        old(intr).wf(),
    ensures
        final(intr).wf(),
        extends(old(intr), final(intr)),
        final(intr).payloads().len() <= old(intr).payloads().len() + 1,
        final(intr).atoms().len() <= old(intr).atoms().len() + 4,
        ok ==> sentinels_known(final(intr)),
        old(intr).frozen_spec() ==> final(intr).payloads() == old(intr).payloads() && final(intr).atoms() == old(intr).atoms(),
        sentinels_known(old(intr)) ==> ok,
        !old(intr).frozen_spec() && old(intr).payloads().len() < u32::MAX && old(intr).atoms().len() + 4 <= u32::MAX ==> ok,
        old(intr).payloads().len() == 0 && old(intr).atoms().len() == 0 && !old(intr).frozen_spec() ==> sentinel_layout(
            final(intr),
        ),
{
    let ghost i0 = *intr;
    proof {
        if sentinels_known(&i0) {
            lemma_known_atom_ids(&i0, AtomKind::Var, Seq::empty());
        }
    }
    let blank = String::new();
    let e = match intr.intern_payload(blank.as_str()) {
        Some(e) => e,
        None => {
            proof {
                assert(intr.payloads().take(i0.payloads().len() as int) =~= i0.payloads());
                assert(intr.atoms().take(i0.atoms().len() as int) =~= i0.atoms());
            }
            return false;
        },
    };
    let ghost i1 = *intr;
    proof {
        assert(intr.payloads().take(i0.payloads().len() as int) =~= i0.payloads());
        assert(intr.atoms().take(i0.atoms().len() as int) =~= i0.atoms());
        assert(intr.atoms() == i0.atoms());
        if sentinels_known(&i0) {
            assert(intr.payloads() == i0.payloads());
            assert(sentinels_known(&i1));
        }
    }
    let ok1 = intern_sentinel(intr, AtomKind::Var, e);
    let ghost i2 = *intr;
    if !ok1 {
        proof { lemma_extends_trans(&i0, &i1, intr); }
        return false;
    }
    proof {
        lemma_extends_trans(&i0, &i1, &i2);
        if sentinels_known(&i0) { assert(sentinels_known(&i2)); }
    }
    let ok2 = intern_sentinel(intr, AtomKind::Cap, e);
    let ghost i3 = *intr;
    if !ok2 {
        proof { lemma_extends_trans(&i0, &i2, intr); }
        return false;
    }
    proof {
        lemma_extends_trans(&i0, &i2, &i3);
        lemma_known_grows(&i2, &i3, AtomKind::Var);
        if sentinels_known(&i0) { assert(sentinels_known(&i3)); }
    }
    let ok3 = intern_sentinel(intr, AtomKind::Num, e);
    let ghost i4 = *intr;
    if !ok3 {
        proof { lemma_extends_trans(&i0, &i3, intr); }
        return false;
    }
    proof {
        lemma_extends_trans(&i0, &i3, &i4);
        lemma_known_grows(&i3, &i4, AtomKind::Var);
        lemma_known_grows(&i3, &i4, AtomKind::Cap);
        if sentinels_known(&i0) { assert(sentinels_known(&i4)); }
    }
    let ok4 = intern_sentinel(intr, AtomKind::WsRun, e);
    proof {
        lemma_extends_trans(&i0, &i4, intr);
        if ok4 {
            lemma_known_grows(&i4, intr, AtomKind::Var);
            lemma_known_grows(&i4, intr, AtomKind::Cap);
            lemma_known_grows(&i4, intr, AtomKind::Num);
        }
        if i0.payloads().len() == 0 && i0.atoms().len() == 0 && !i0.frozen_spec() {
            assert(e == 0);
            assert(!atom_known(&i1, AtomKind::Var, Seq::empty()));
            assert(i2.atoms() == seq![(AtomKind::Var, 0u32)]);
            assert(!atom_known(&i2, AtomKind::Cap, Seq::empty())) by {
                if atom_known(&i2, AtomKind::Cap, Seq::empty()) {
                    let q = choose|q: int| 0 <= q < i2.atoms().len() && (#[trigger] i2.atoms()[q]).0 == AtomKind::Cap
                        && i2.payloads()[i2.atoms()[q].1 as int] == Seq::<char>::empty();
                }
            }
            assert(!atom_known(&i3, AtomKind::Num, Seq::empty())) by {
                if atom_known(&i3, AtomKind::Num, Seq::empty()) {
                    let q = choose|q: int| 0 <= q < i3.atoms().len() && (#[trigger] i3.atoms()[q]).0 == AtomKind::Num
                        && i3.payloads()[i3.atoms()[q].1 as int] == Seq::<char>::empty();
                }
            }
            assert(!atom_known(&i4, AtomKind::WsRun, Seq::empty())) by {
                if atom_known(&i4, AtomKind::WsRun, Seq::empty()) {
                    let q = choose|q: int| 0 <= q < i4.atoms().len() && (#[trigger] i4.atoms()[q]).0 == AtomKind::WsRun
                        && i4.payloads()[i4.atoms()[q].1 as int] == Seq::<char>::empty();
                }
            }
        }
    }
    ok4
}

proof fn lemma_known_grows(a: &Interner, b: &Interner, kind: AtomKind)
    requires
        a.wf(),
        grows(a, b),
        atom_known(a, kind, Seq::empty()),
    ensures
        atom_known(b, kind, Seq::empty()),
{
    lemma_piece_known_grows(a, b, (kind, Seq::empty()));
    lemma_known_atom_ids(a, kind, Seq::empty());
}

/// Interns the slot-kind atoms, then splits `text` and interns its pieces.
fn tokenize_impl(text: &str, cfg: &TokenizeConfig, intr: &mut Interner) -> (r: Option<StructuredInput>)
    requires
        old(intr).wf(),
    ensures
        final(intr).wf(),
        extends(old(intr), final(intr)),
        r matches Some(si) ==> spells(final(intr), si.atoms@, si.slots@, text@),
        r matches Some(si) ==> tokens_are(final(intr), si.atoms@, si.slots@, pieces_from(cfg, text@, 0)),
        r is Some ==> sentinels_known(final(intr)) && all_known(final(intr), pieces_from(cfg, text@, 0)),
        !old(intr).frozen_spec() && old(intr).payloads().len() + 2 * text@.len() + 1 <= u32::MAX
            && old(intr).atoms().len() + text@.len() + 4 <= u32::MAX ==> r is Some,
        sentinels_known(old(intr)) && all_known(old(intr), pieces_from(cfg, text@, 0)) ==> r is Some,
        old(intr).frozen_spec() ==> final(intr).payloads() == old(intr).payloads() && final(intr).atoms() == old(intr).atoms(),
        old(intr).frozen_spec() && !(sentinels_known(old(intr)) && all_known(old(intr), pieces_from(cfg, text@, 0)))
            ==> r is None,
        old(intr).payloads().len() == 0 && old(intr).atoms().len() == 0 && !old(intr).frozen_spec() && r is Some
            ==> sentinel_layout(final(intr)),
{
    let ghost i0 = *intr;
    if !intern_sentinels(intr) {
        return None;
    }
    let ghost i1 = *intr;
    proof {
        let ps = pieces_from(cfg, text@, 0);
        if all_known(&i0, ps) {
            assert forall|k: int| 0 <= k < ps.len() implies piece_known(&i1, #[trigger] ps[k]) by {
                lemma_piece_known_grows(&i0, &i1, ps[k]);
            }
        }
    }
    let r = tokenize_pieces(text, cfg, intr);
    proof {
        lemma_extends_trans(&i0, &i1, intr);
        if r is Some {
            lemma_known_grows(&i1, intr, AtomKind::Var);
            lemma_known_grows(&i1, intr, AtomKind::Cap);
            lemma_known_grows(&i1, intr, AtomKind::Num);
            lemma_known_grows(&i1, intr, AtomKind::WsRun);
            if i0.payloads().len() == 0 && i0.atoms().len() == 0 && !i0.frozen_spec() {
                lemma_layout_grows(&i1, intr);
            }
        }
    }
    r
}

/// Splits `text` into whitespace runs, single punctuation characters and words, and
/// appends their atoms and slot values, interning what is new.
fn tokenize_pieces(text: &str, cfg: &TokenizeConfig, intr: &mut Interner) -> (r: Option<StructuredInput>)
    requires
        old(intr).wf(),
    ensures
        final(intr).wf(),
        extends(old(intr), final(intr)),
        r matches Some(si) ==> spells(final(intr), si.atoms@, si.slots@, text@),
        r matches Some(si) ==> tokens_are(final(intr), si.atoms@, si.slots@, pieces_from(cfg, text@, 0)),
        !old(intr).frozen_spec() && old(intr).payloads().len() + 2 * text@.len() <= u32::MAX
            && old(intr).atoms().len() + text@.len() <= u32::MAX ==> r is Some,
        all_known(old(intr), pieces_from(cfg, text@, 0)) ==> r is Some,
        old(intr).frozen_spec() ==> final(intr).payloads() == old(intr).payloads() && final(intr).atoms() == old(intr).atoms(),
        r is Some ==> all_known(final(intr), pieces_from(cfg, text@, 0)),
{
    let ghost i0 = *intr;
    let ghost mut done: Seq<(AtomKind, Seq<char>)> = Seq::empty();
    let chars = chars_vec(text);
    let n = chars.len();
    let mut atoms: Vec<AtomId> = Vec::new();
    let mut slots: Vec<SlotValue> = Vec::new();
    let mut i: usize = 0;
    proof {
        assert(intr.payloads().take(i0.payloads().len() as int) =~= i0.payloads());
        assert(intr.atoms().take(i0.atoms().len() as int) =~= i0.atoms());
        assert(chars@.take(0) =~= Seq::<char>::empty());
    }
    while i < n
        invariant
            i0 == *old(intr),
            i0.wf(),
            intr.wf(),
            extends(&i0, intr),
            chars@ == text@,
            n == chars@.len(),
            i <= n,
            spells(intr, atoms@, slots@, chars@.take(i as int)),
            tokens_are(intr, atoms@, slots@, done),
            done + pieces_from(cfg, chars@, i as int) == pieces_from(cfg, chars@, 0),
            i0.frozen_spec() ==> intr.payloads() == i0.payloads() && intr.atoms() == i0.atoms(),
            forall|k: int| 0 <= k < done.len() ==> piece_known(intr, #[trigger] done[k]),
            intr.payloads().len() <= i0.payloads().len() + 2 * i,
            intr.atoms().len() <= i0.atoms().len() + i,
            !i0.frozen_spec() && i0.payloads().len() + 2 * text@.len() <= u32::MAX
                && i0.atoms().len() + text@.len() <= u32::MAX ==> intr.payloads().len() + 2 * (n - i) <= u32::MAX
                && intr.atoms().len() + (n - i) <= u32::MAX,
        decreases n - i,
    {
        let c = chars[i];
        let start = i;
        i = i + 1;
        let kind: AtomKind;
        if is_ws(c) {
            while i < n && is_ws(chars[i])
                invariant
                    start < i <= n,
                    n == chars@.len(),
                    ws_end(chars@, start + 1) == ws_end(chars@, i as int),
                decreases n - i,
            {
                i = i + 1;
            }
            kind = if cfg.ws_run { AtomKind::WsRun } else { AtomKind::Ws };
        } else if is_punct(c) {
            kind = AtomKind::Punc;
        } else {
            while i < n && !is_ws(chars[i]) && !is_punct(chars[i])
                invariant
                    start < i <= n,
                    n == chars@.len(),
                    word_end(chars@, start + 1) == word_end(chars@, i as int),
                decreases n - i,
            {
                i = i + 1;
            }
            let w = string_of(&chars, start, i);
            kind = classify_word(cfg, &w);
        }
        let seg = string_of(&chars, start, i);
        proof {
            assert(i as int == piece_end(chars@, start as int));
            assert(kind == piece_kind(cfg, chars@, start as int));
            assert(pieces_from(cfg, chars@, start as int) == seq![(kind, seg@)] + pieces_from(cfg, chars@, i as int));
        }
        let ghost i1 = *intr;
        let ghost a1 = atoms@;
        let ghost s1 = slots@;
        proof {
            if all_known(&i0, pieces_from(cfg, chars@, 0)) {
                let all = pieces_from(cfg, chars@, 0);
                assert(all[done.len() as int] == (kind, seg@));
                assert(piece_known(&i0, all[done.len() as int]));
                lemma_piece_known_grows(&i0, &i1, (kind, seg@));
            }
        }
        proof {
            assert(extends(&i0, &i1));
            assert(!i0.frozen_spec() && i0.payloads().len() + 2 * text@.len() <= u32::MAX
                && i0.atoms().len() + text@.len() <= u32::MAX ==> !i1.frozen_spec() && i1.payloads().len() + 2 <= u32::MAX
                && i1.atoms().len() + 1 <= u32::MAX);
        }
        let ok = push_piece(intr, kind, seg.as_str(), &mut atoms, &mut slots);
        if !ok {
            proof {
                assert(extends(&i1, intr));
                lemma_extends_trans(&i0, &i1, intr);
                assert(extends(&i0, intr));
            }
            return None;
        }
        proof {
            lemma_extends_trans(&i0, &i1, intr);
            assert(chars@.take(i as int) =~= chars@.take(start as int) + chars@.subrange(start as int, i as int));
            let d1 = done.push((kind, seg@));
            assert forall|k: int| 0 <= k < d1.len() implies piece_known(intr, #[trigger] d1[k]) by {
                if k < done.len() {
                    assert(d1[k] == done[k]);
                    lemma_piece_known_grows(&i1, intr, done[k]);
                }
            }
            assert forall|k: int| 0 <= k < atoms@.len() implies #[trigger] atom_is_piece(intr, atoms@, slots@, k, d1[k]) by {
                if k < a1.len() {
                    assert(atom_is_piece(&i1, a1, s1, k, done[k]));
                    lemma_piece_stable(&i1, intr, a1, s1, atoms@, slots@, k, done[k]);
                }
            }
            assert(d1 + pieces_from(cfg, chars@, i as int) =~= done + pieces_from(cfg, chars@, start as int));
            done = d1;
        }
    }
    proof {
        assert(chars@.take(n as int) =~= chars@);
        assert(done + pieces_from(cfg, chars@, n as int) =~= done);
        assert forall|k: int| 0 <= k < done.len() implies piece_known(intr, #[trigger] pieces_from(cfg, text@, 0)[k]) by {
            assert(pieces_from(cfg, text@, 0)[k] == done[k]);
        }
    }
    Some(StructuredInput { atoms, slots })
}

proof fn lemma_extends_trans(a: &Interner, b: &Interner, c: &Interner)
    requires
        extends(a, b),
        extends(b, c),
    ensures
        extends(a, c),
{
    assert(c.payloads().take(a.payloads().len() as int) =~= b.payloads().take(a.payloads().len() as int));
    assert(c.atoms().take(a.atoms().len() as int) =~= b.atoms().take(a.atoms().len() as int));
}

/// Tokenizes `text`, interning new payloads and atoms. Fails only when the interner
/// is frozen and a needed entry is unknown, or its ids run out.
pub fn tokenize(text: &str, cfg: &TokenizeConfig, interner: &mut Interner) -> (r: Option<StructuredInput>)
    requires
        old(interner).wf(),
    ensures
        final(interner).wf(),
        extends(old(interner), final(interner)),
        r matches Some(si) ==> spells(final(interner), si.atoms@, si.slots@, text@),
        r matches Some(si) ==> tokens_are(final(interner), si.atoms@, si.slots@, pieces_from(cfg, text@, 0)),
        !old(interner).frozen_spec() && old(interner).payloads().len() + 2 * text@.len() + 1 <= u32::MAX
            && old(interner).atoms().len() + text@.len() + 4 <= u32::MAX ==> r is Some,
        sentinels_known(old(interner)) && all_known(old(interner), pieces_from(cfg, text@, 0)) ==> r is Some,
        old(interner).frozen_spec() ==> final(interner).payloads() == old(interner).payloads()
            && final(interner).atoms() == old(interner).atoms(),
        old(interner).frozen_spec() && !(sentinels_known(old(interner)) && all_known(old(interner), pieces_from(cfg, text@, 0)))
            ==> r is None,
        old(interner).payloads().len() == 0 && old(interner).atoms().len() == 0 && !old(interner).frozen_spec() && r is Some
            ==> sentinel_layout(final(interner)),
{
    tokenize_impl(text, cfg, interner)
}

/// Tokenizes `text` against a scratch copy of `interner`, which is left as it is.
/// With `strict_frozen` off the copy may grow even when `interner` is frozen; with it
/// on, a frozen interner makes unknown entries fail.
pub fn tokenize_frozen(text: &str, cfg: &TokenizeConfig, interner: &Interner) -> (r: Option<StructuredInput>)
    requires
        interner.wf(),
    ensures
        r matches Some(si) ==> exists|x: Interner| #[trigger] x.wf() && grows(interner, &x) && spells(&x, si.atoms@, si.slots@, text@)
            && tokens_are(&x, si.atoms@, si.slots@, pieces_from(cfg, text@, 0)),
        (!interner.frozen_spec() || !cfg.strict_frozen) && interner.payloads().len() + 2 * text@.len() + 1 <= u32::MAX
            && interner.atoms().len() + text@.len() + 4 <= u32::MAX ==> r is Some,
        sentinels_known(interner) && all_known(interner, pieces_from(cfg, text@, 0)) ==> r is Some,
        interner.frozen_spec() && cfg.strict_frozen && !(sentinels_known(interner) && all_known(
            interner,
            pieces_from(cfg, text@, 0),
        )) ==> r is None,
{
    let mut scratch = interner.duplicate();
    if !cfg.strict_frozen {
        scratch.thaw();
    }
    let ghost s0 = scratch;
    proof {
        if sentinels_known(interner) {
            assert(s0.payloads().take(interner.payloads().len() as int) =~= interner.payloads());
            assert(s0.atoms().take(interner.atoms().len() as int) =~= interner.atoms());
            lemma_known_grows(interner, &s0, AtomKind::Var);
            lemma_known_grows(interner, &s0, AtomKind::Cap);
            lemma_known_grows(interner, &s0, AtomKind::Num);
            lemma_known_grows(interner, &s0, AtomKind::WsRun);
        }
        if cfg.strict_frozen {
            assert(s0.payloads() =~= interner.payloads());
            assert(s0.atoms() =~= interner.atoms());
        }
        if all_known(interner, pieces_from(cfg, text@, 0)) {
            assert(s0.payloads().take(interner.payloads().len() as int) =~= interner.payloads());
            assert(s0.atoms().take(interner.atoms().len() as int) =~= interner.atoms());
            let ps = pieces_from(cfg, text@, 0);
            assert forall|k: int| 0 <= k < ps.len() implies piece_known(&s0, #[trigger] ps[k]) by {
                lemma_piece_known_grows(interner, &s0, ps[k]);
            }
        }
    }
    let r = tokenize_impl(text, cfg, &mut scratch);
    proof {
        assert(scratch.payloads().take(interner.payloads().len() as int) =~= s0.payloads().take(interner.payloads().len() as int));
        assert(scratch.atoms().take(interner.atoms().len() as int) =~= s0.atoms().take(interner.atoms().len() as int));
        assert(s0.payloads().take(interner.payloads().len() as int) =~= interner.payloads());
        assert(s0.atoms().take(interner.atoms().len() as int) =~= interner.atoms());
        assert(grows(interner, &scratch));
    }
    r
}

} // verus!
