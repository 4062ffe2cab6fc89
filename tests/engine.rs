use williamson_encoder::canonical::{
    decode_canonical, from_canonical_ids, read_canonical, to_canonical, token_of_id, write_canonical,
    CanonicalError, MAGIC,
};
use williamson_encoder::decode::decode;
use williamson_encoder::encode::encode_stream;
use williamson_encoder::tokenize::{default_stopwords, tokenize, tokenize_frozen};
use williamson_encoder::{
    AtomKind, EncTok, EncodeResult, EncodeStats, Encoder, Interner, SlotValue, StructuredInput, Template,
    TokenizeConfig, Trie,
};

fn demo_encoder() -> Encoder {
    let mut interner = Interner::new();
    let ws = interner.intern_payload(" ").unwrap();
    let ws_atom = interner.intern_atom(AtomKind::Ws, ws).unwrap();
    let empty = interner.intern_payload("").unwrap();
    let var_atom = interner.intern_atom(AtomKind::Var, empty).unwrap();
    let t1 = Template::new(vec![ws_atom, var_atom, ws_atom], vec![AtomKind::Var]);
    let t2 = Template::new(vec![var_atom, ws_atom, var_atom], vec![AtomKind::Var, AtomKind::Var]);
    Encoder::from_templates(interner, vec![t1, t2])
}

fn round_trip(enc: &mut Encoder, text: &str, cfg: &TokenizeConfig) -> String {
    let input = enc.tokenize(text, cfg).unwrap();
    let encoded = enc.encode_stream(&input);
    enc.decode(&encoded)
}

#[test]
fn round_trip_plain_text() {
    let mut enc = demo_encoder();
    let cfg = TokenizeConfig::with_default_stopwords();
    let text = "The quick brown Fox jumps over 3.14 lazy dogs, doesn't it?\n\tYes!";
    assert_eq!(round_trip(&mut enc, text, &cfg), text);
}

#[test]
fn round_trip_ws_run_and_unicode() {
    let mut enc = demo_encoder();
    let cfg = TokenizeConfig { ws_run: true, strict_frozen: false, stopwords: None };
    let text = "  Ünïcödé   words\t\t and   ümlauts  ";
    assert_eq!(round_trip(&mut enc, text, &cfg), text);
}

#[test]
fn round_trip_empty_text() {
    let mut enc = demo_encoder();
    let cfg = TokenizeConfig::default();
    let input = enc.tokenize("", &cfg).unwrap();
    assert!(input.atoms.is_empty());
    assert!(input.slots.is_empty());
    let encoded = enc.encode_stream(&input);
    assert!(encoded.toks.is_empty());
    assert_eq!(enc.decode(&encoded), "");
}

#[test]
fn round_trip_canonical_path() {
    let mut enc = demo_encoder();
    let cfg = TokenizeConfig::with_default_stopwords();
    let text = "Alice met Bob at 10.30 in the park; they talked.";
    let input = enc.tokenize(text, &cfg).unwrap();
    let encoded = enc.encode_stream(&input);
    let (ids, slots) = to_canonical(&encoded, &enc.interner, enc.templates.len());
    let bytes = write_canonical(&ids, &slots);
    let (ids2, slots2) = read_canonical(&bytes).unwrap();
    assert_eq!(ids2, ids);
    assert_eq!(slots2, slots);
    assert_eq!(decode_canonical(&enc.interner, &enc.templates, &ids2, &slots2), text);
}

#[test]
fn slot_conservation() {
    let mut enc = demo_encoder();
    let cfg = TokenizeConfig::with_default_stopwords();
    let input = enc.tokenize("Tom and Jerry ran 42 laps", &cfg).unwrap();
    let slot_atoms = input
        .atoms
        .iter()
        .filter(|a| enc.interner.atom_info(**a).0.is_slot())
        .count();
    assert_eq!(slot_atoms, input.slots.len());
    let encoded = enc.encode_stream(&input);
    assert_eq!(encoded.slots, input.slots);
}

#[test]
fn tokenizer_classifies_words() {
    let mut interner = Interner::new();
    let cfg = TokenizeConfig::with_default_stopwords();
    let input = tokenize("The Cat sat, 7 dogs's", &cfg, &mut interner).unwrap();
    let kinds: Vec<AtomKind> = input.atoms.iter().map(|a| interner.atom_info(*a).0).collect();
    assert_eq!(
        kinds,
        vec![
            AtomKind::Lit,
            AtomKind::Ws,
            AtomKind::Cap,
            AtomKind::Ws,
            AtomKind::Var,
            AtomKind::Punc,
            AtomKind::Ws,
            AtomKind::Num,
            AtomKind::Ws,
            AtomKind::Var,
        ]
    );
    let slot_text: Vec<String> =
        input.slots.iter().map(|s| interner.payload_str(s.payload).to_string()).collect();
    assert_eq!(slot_text, vec!["Cat", "sat", "7", "dogs's"]);
    let lit = interner.atom_info(input.atoms[0]);
    assert_eq!(interner.payload_str(lit.1), "The");
}

#[test]
fn tokenizer_without_stopwords_uses_var() {
    let mut interner = Interner::new();
    let cfg = TokenizeConfig::default();
    let input = tokenize("the", &cfg, &mut interner).unwrap();
    assert_eq!(interner.atom_info(input.atoms[0]).0, AtomKind::Var);
    assert_eq!(input.slots.len(), 1);
}

#[test]
fn tokenizer_ws_run_slots() {
    let mut interner = Interner::new();
    let cfg = TokenizeConfig { ws_run: true, strict_frozen: false, stopwords: None };
    let input = tokenize("a \n b", &cfg, &mut interner).unwrap();
    assert_eq!(interner.atom_info(input.atoms[1]).0, AtomKind::WsRun);
    assert_eq!(interner.payload_str(input.slots[1].payload), " \n ");
    assert_eq!(input.slots[1].kind, AtomKind::WsRun);
}

#[test]
fn default_stopword_list() {
    let words = default_stopwords();
    assert_eq!(words.len(), 63);
    assert!(words.contains(&"the".to_string()));
    assert!(words.contains(&"here".to_string()));
}

#[test]
fn longest_match_wins() {
    let mut interner = Interner::new();
    let p1 = interner.intern_payload("w1").unwrap();
    let p2 = interner.intern_payload("w2").unwrap();
    let p3 = interner.intern_payload("w3").unwrap();
    let w1 = interner.intern_atom(AtomKind::Lit, p1).unwrap();
    let w2 = interner.intern_atom(AtomKind::Lit, p2).unwrap();
    let w3 = interner.intern_atom(AtomKind::Lit, p3).unwrap();
    let a = Template::new(vec![w1], vec![]);
    let b = Template::new(vec![w1, w2], vec![]);
    let templates = vec![a, b];
    let trie = Trie::build(&templates);
    let input = StructuredInput { atoms: vec![w1, w2, w3], slots: vec![] };
    let r = encode_stream(&trie, &templates, &input);
    assert_eq!(r.toks, vec![EncTok::Template(1), EncTok::LiteralAtom(w3)]);
    assert_eq!(trie.match_longest(&[w1, w2, w3], 0), (2, 1, 3));
    assert_eq!(trie.match_longest(&[w1, w3], 0), (1, 0, 2));
    assert_eq!(trie.match_longest(&[w2], 0), (0, -1, 1));
}

#[test]
fn no_match_emits_literals() {
    let templates: Vec<Template> = vec![];
    let trie = Trie::build(&templates);
    let input = StructuredInput { atoms: vec![4, 2, 9], slots: vec![] };
    let r = encode_stream(&trie, &templates, &input);
    assert_eq!(r.toks, vec![EncTok::LiteralAtom(4), EncTok::LiteralAtom(2), EncTok::LiteralAtom(9)]);
    assert_eq!(
        r.stats,
        EncodeStats { positions: 3, trie_steps: 3, template_hits: 0, literal_emits: 3 }
    );
}

#[test]
fn duplicate_templates_last_wins() {
    let templates = vec![Template::new(vec![7, 8], vec![]), Template::new(vec![7, 8], vec![])];
    let trie = Trie::build(&templates);
    assert_eq!(trie.match_longest(&[7, 8], 0), (2, 1, 2));
}

#[test]
fn encode_is_deterministic() {
    let mut enc = demo_encoder();
    let cfg = TokenizeConfig::with_default_stopwords();
    let input = enc.tokenize("one two three four five", &cfg).unwrap();
    let r1 = enc.encode_stream(&input);
    let r2 = enc.encode_stream(&input);
    assert_eq!(r1.toks, r2.toks);
    assert_eq!(r1.slots, r2.slots);
    assert_eq!(r1.stats, r2.stats);
    let (i1, s1) = to_canonical(&r1, &enc.interner, enc.templates.len());
    let (i2, s2) = to_canonical(&r2, &enc.interner, enc.templates.len());
    assert_eq!(write_canonical(&i1, &s1), write_canonical(&i2, &s2));
}

#[test]
fn template_hits_and_stats() {
    let mut enc = demo_encoder();
    let cfg = TokenizeConfig::default();
    let input = enc.tokenize("x y", &cfg).unwrap();
    let r = enc.encode_stream(&input);
    assert_eq!(r.toks, vec![EncTok::Template(1)]);
    assert_eq!(r.stats.template_hits, 1);
    assert_eq!(r.stats.literal_emits, 0);
    assert_eq!(r.stats.positions, 1);
    assert_eq!(r.slots.len(), 2);
}

#[test]
fn frozen_interner_keeps_ids() {
    let mut interner = Interner::new();
    let a = interner.intern_payload("a").unwrap();
    let atom = interner.intern_atom(AtomKind::Lit, a).unwrap();
    interner.freeze();
    assert!(interner.is_frozen());
    assert_eq!(interner.intern_payload("a"), Some(a));
    assert_eq!(interner.intern_atom(AtomKind::Lit, a), Some(atom));
    assert_eq!(interner.intern_payload("b"), None);
    assert_eq!(interner.intern_atom(AtomKind::Punc, a), None);
    assert_eq!(interner.payload_count(), 1);
    assert_eq!(interner.atom_count(), 1);
}

#[test]
fn interner_ids_in_order() {
    let mut interner = Interner::new();
    assert_eq!(interner.intern_payload("x"), Some(0));
    assert_eq!(interner.intern_payload("y"), Some(1));
    assert_eq!(interner.intern_payload("x"), Some(0));
    assert_eq!(interner.intern_atom(AtomKind::Var, 1), Some(0));
    assert_eq!(interner.intern_atom(AtomKind::Cap, 1), Some(1));
    assert_eq!(interner.atom_id(AtomKind::Cap, 1), Some(1));
    assert_eq!(interner.atom_id(AtomKind::Num, 1), None);
    assert_eq!(interner.payload_id("y"), Some(1));
    assert_eq!(interner.payload_id("z"), None);
    assert_eq!(interner.atom_info(1), (AtomKind::Cap, 1));
    assert_eq!(interner.payload_str(0), "x");
}

#[test]
fn tokenize_frozen_strict_fails_on_unknown() {
    let mut interner = Interner::new();
    interner.freeze();
    let strict = TokenizeConfig { ws_run: false, strict_frozen: true, stopwords: None };
    assert!(tokenize_frozen("hello", &strict, &interner).is_none());
    let lax = TokenizeConfig::default();
    let input = tokenize_frozen("hello", &lax, &interner).unwrap();
    assert_eq!(input.atoms.len(), 1);
    assert_eq!(interner.atom_count(), 0);
}

#[test]
fn tokenize_frozen_mutable_fails_on_unknown() {
    let mut interner = Interner::new();
    interner.freeze();
    assert!(tokenize("word", &TokenizeConfig::default(), &mut interner).is_none());
    assert_eq!(interner.payload_count(), 0);
}

#[test]
fn canonical_ids_boundary() {
    assert_eq!(from_canonical_ids(&[0, 5], 3), vec![EncTok::Template(0), EncTok::LiteralAtom(2)]);
    assert_eq!(token_of_id(2, 3), EncTok::Template(2));
    assert_eq!(token_of_id(3, 3), EncTok::LiteralAtom(0));
}

#[test]
fn canonical_bytes_layout() {
    let bytes = write_canonical(&[1, 258], &["hé".to_string()]);
    let expected: Vec<u8> = vec![
        0x4C, 0x4C, 0x49, 0x57, 1, 0, 0, 0, 2, 0, 0, 0, 0, 0, 0, 0, 1, 0, 0, 0, 2, 1, 0, 0, 1, 0, 0, 0,
        0, 0, 0, 0, 3, 0, 0, 0, b'h', 0xC3, 0xA9,
    ];
    assert_eq!(bytes, expected);
    assert_eq!(MAGIC, 0x57494C4C);
}

#[test]
fn canonical_read_errors() {
    assert_eq!(read_canonical(&[1, 2]), Err(CanonicalError::Truncated));
    assert_eq!(read_canonical(&[0, 0, 0, 0, 1, 0, 0, 0]), Err(CanonicalError::BadMagic));
    assert_eq!(read_canonical(&[0x4C, 0x4C, 0x49, 0x57, 2, 0, 0, 0]), Err(CanonicalError::BadVersion));
    let mut ok = write_canonical(&[7], &[]);
    ok.truncate(ok.len() - 3);
    assert_eq!(read_canonical(&ok), Err(CanonicalError::Truncated));
    let mut bad = write_canonical(&[], &["ab".to_string()]);
    let n = bad.len();
    bad[n - 1] = 0xFF;
    assert_eq!(read_canonical(&bad), Err(CanonicalError::BadUtf8));
}

#[test]
fn decode_runs_out_of_slots() {
    let mut interner = Interner::new();
    let e = interner.intern_payload("").unwrap();
    let v = interner.intern_atom(AtomKind::Var, e).unwrap();
    let p = interner.intern_payload("!").unwrap();
    let bang = interner.intern_atom(AtomKind::Punc, p).unwrap();
    let w = interner.intern_payload("hi").unwrap();
    let templates = vec![Template::new(vec![v, bang, v], vec![AtomKind::Var, AtomKind::Var])];
    let encoded = EncodeResult {
        toks: vec![EncTok::Template(0)],
        slots: vec![SlotValue { kind: AtomKind::Var, payload: w }],
        stats: EncodeStats { positions: 0, trie_steps: 0, template_hits: 0, literal_emits: 0 },
    };
    assert_eq!(decode(&interner, &templates, &encoded), "hi!");
    assert_eq!(decode_canonical(&interner, &templates, &[0], &["hi".to_string()]), "hi!");
}

#[test]
fn template_accessors() {
    let t = Template::new(vec![1, 2, 3], vec![AtomKind::Num]);
    assert_eq!(t.len(), 3);
    assert!(!t.is_empty());
    assert_eq!(t.slot_count, 1);
    assert!(Template::new(vec![], vec![]).is_empty());
    assert!(AtomKind::WsRun.is_slot());
    assert!(!AtomKind::Punc.is_slot());
}

#[test]
fn fixed_kind_atoms_share_empty_payload() {
    let mut interner = Interner::new();
    let v = interner.intern_fixed_kind(AtomKind::Var).unwrap();
    let c = interner.intern_fixed_kind(AtomKind::Cap).unwrap();
    assert_ne!(v, c);
    assert_eq!(interner.intern_fixed_kind(AtomKind::Var), Some(v));
    assert_eq!(interner.payload_count(), 1);
    assert_eq!(interner.payload_str(interner.atom_info(c).1), "");
    interner.freeze();
    assert_eq!(interner.intern_fixed_kind(AtomKind::Num), None);
}

#[test]
fn frozen_interner_tokenizes_known_text() {
    let mut interner = Interner::new();
    let cfg = TokenizeConfig::default();
    let first = tokenize("Hi, you", &cfg, &mut interner).unwrap();
    interner.freeze();
    let (p, a) = (interner.payload_count(), interner.atom_count());
    let again = tokenize("Hi, you", &cfg, &mut interner).unwrap();
    assert_eq!(again.atoms, first.atoms);
    assert_eq!(again.slots, first.slots);
    assert_eq!((interner.payload_count(), interner.atom_count()), (p, a));
    assert!(tokenize("Hi,  you", &cfg, &mut interner).is_none());
}

#[test]
fn trie_with_many_siblings() {
    let templates = vec![
        Template::new(vec![9], vec![]),
        Template::new(vec![3, 1], vec![]),
        Template::new(vec![5], vec![]),
        Template::new(vec![3], vec![]),
        Template::new(vec![3, 0, 7], vec![]),
        Template::new(vec![1], vec![]),
    ];
    let trie = Trie::build(&templates);
    assert_eq!(trie.match_longest(&[9], 0), (1, 0, 1));
    assert_eq!(trie.match_longest(&[5, 5], 0), (1, 2, 2));
    assert_eq!(trie.match_longest(&[3, 1, 4], 0), (2, 1, 3));
    assert_eq!(trie.match_longest(&[3, 0, 7], 0), (3, 4, 3));
    assert_eq!(trie.match_longest(&[3, 0, 8], 0), (1, 3, 3));
    assert_eq!(trie.match_longest(&[1, 3], 0), (1, 5, 2));
    assert_eq!(trie.match_longest(&[4], 0), (0, -1, 1));
    assert_eq!(trie.match_longest(&[4, 9], 1), (1, 0, 1));
    assert_eq!(trie.match_longest(&[9], 5), (0, -1, 0));
    for n in &trie.nodes {
        let s = n.edges_start as usize;
        let e = s + n.edges_len as usize;
        assert!(trie.edges[s..e].windows(2).all(|w| w[0].tok < w[1].tok));
    }
}

#[test]
fn tokenize_ids_hello_world() {
    let mut interner = Interner::new();
    let input = tokenize("Hello world", &TokenizeConfig::default(), &mut interner).unwrap();
    assert_eq!(input.atoms, vec![1, 4, 0]);
    assert_eq!(
        input.slots,
        vec![SlotValue { kind: AtomKind::Cap, payload: 1 }, SlotValue { kind: AtomKind::Var, payload: 3 }]
    );
    assert_eq!(interner.atom_info(4), (AtomKind::Ws, 2));
    assert_eq!(interner.payload_str(2), " ");
    assert_eq!(interner.atom_count(), 5);
    assert_eq!(interner.atom_info(3), (AtomKind::WsRun, 0));
}

#[test]
fn tokenize_ids_with_stopwords() {
    let mut interner = Interner::new();
    let input = tokenize("the 3.14!", &TokenizeConfig::with_default_stopwords(), &mut interner).unwrap();
    assert_eq!(input.atoms, vec![4, 5, 2, 6, 2, 7]);
    assert_eq!(
        input.slots,
        vec![SlotValue { kind: AtomKind::Num, payload: 3 }, SlotValue { kind: AtomKind::Num, payload: 5 }]
    );
    assert_eq!(interner.atom_info(4), (AtomKind::Lit, 1));
    assert_eq!(interner.payload_str(1), "the");
}

#[test]
fn empty_dictionary_counts_one_lookup_per_atom() {
    let templates: Vec<Template> = vec![];
    let trie = Trie::build(&templates);
    assert_eq!(trie.nodes.len(), 1);
    assert!(trie.edges.is_empty());
    let input = StructuredInput { atoms: vec![3, 1, 4], slots: vec![] };
    let r = encode_stream(&trie, &templates, &input);
    assert_eq!(r.toks, vec![EncTok::LiteralAtom(3), EncTok::LiteralAtom(1), EncTok::LiteralAtom(4)]);
    assert_eq!(r.stats, EncodeStats { positions: 3, trie_steps: 3, template_hits: 0, literal_emits: 3 });
}
