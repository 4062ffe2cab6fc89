use williamson_encoder::bench::verify_lossless;
use williamson_encoder::loader_v92::{
    build_interner_preserve_atom_ids, build_templates, load_v92_parts, parse_atom_string, parse_template_id,
    LoadError,
};
use williamson_encoder::{AtomKind, EncTok, Interner, SlotValue, StructuredInput, Template, TokenizeConfig};
use williamson_encoder::Encoder;

fn s(x: &str) -> String {
    x.to_string()
}

#[test]
fn parse_atom_strings() {
    assert_eq!(parse_atom_string("VAR"), Ok((AtomKind::Var, s(""))));
    assert_eq!(parse_atom_string("CAP"), Ok((AtomKind::Cap, s(""))));
    assert_eq!(parse_atom_string("NUM"), Ok((AtomKind::Num, s(""))));
    assert_eq!(parse_atom_string("LIT(the)"), Ok((AtomKind::Lit, s("the"))));
    assert_eq!(parse_atom_string("PUNC(,)"), Ok((AtomKind::Punc, s(","))));
    assert_eq!(parse_atom_string("WS(' ')"), Ok((AtomKind::Ws, s(" "))));
    assert_eq!(parse_atom_string("WS( )"), Ok((AtomKind::Ws, s(" "))));
    assert_eq!(parse_atom_string("LIT('x')"), Ok((AtomKind::Lit, s("'x'"))));
    assert_eq!(parse_atom_string("PUNC())"), Ok((AtomKind::Punc, s(")"))));
    assert_eq!(parse_atom_string("LIT(a(b)c)"), Ok((AtomKind::Lit, s("a(b)c"))));
    assert_eq!(parse_atom_string("WS(')"), Ok((AtomKind::Ws, s("'"))));
    assert_eq!(parse_atom_string("FOO(x)"), Err(LoadError::BadAtom));
    assert_eq!(parse_atom_string("LIT"), Err(LoadError::BadAtom));
    assert_eq!(parse_atom_string("LIT)x("), Err(LoadError::BadAtom));
    assert_eq!(parse_atom_string("var"), Err(LoadError::BadAtom));
}

#[test]
fn parse_template_ids() {
    assert_eq!(parse_template_id("<T0>"), Ok(0));
    assert_eq!(parse_template_id("<T42>"), Ok(42));
    assert_eq!(parse_template_id("<T+7>"), Ok(7));
    assert_eq!(parse_template_id("<T>"), Err(LoadError::BadTemplateId));
    assert_eq!(parse_template_id("<T-1>"), Err(LoadError::BadTemplateId));
    assert_eq!(parse_template_id("T0"), Err(LoadError::BadTemplateId));
    assert_eq!(parse_template_id("<T1x>"), Err(LoadError::BadTemplateId));
    assert_eq!(parse_template_id("<T99999999999999999999999>"), Err(LoadError::BadTemplateId));
}

#[test]
fn importer_fidelity() {
    let atoms = vec![(s("LIT('x')"), 0), (s("VAR"), 1)];
    let templates = vec![(s("<T0>"), vec![s("LIT('x')"), s("VAR")])];
    let mut enc = load_v92_parts("9.2", &atoms, &templates).unwrap();
    assert_eq!(enc.templates.len(), 1);
    assert_eq!(enc.templates[0].slot_count, 1);
    assert_eq!(enc.templates[0].slot_kinds, vec![AtomKind::Var]);
    assert_eq!(enc.templates[0].atoms, vec![0, 1]);
    assert!(enc.interner.is_frozen());
    let cfg_frozen = TokenizeConfig { ws_run: false, strict_frozen: false, stopwords: Some(vec![s("x")]) };
    assert!(enc.tokenize("x hello", &cfg_frozen).is_none());
    assert!(!verify_lossless(&mut enc, "x hello", &cfg_frozen));
    assert_eq!(enc.interner.atom_info(0).0, AtomKind::Lit);
    assert_eq!(enc.interner.atom_info(1).0, AtomKind::Var);

    enc.interner.thaw();
    let pid = enc.interner.intern_payload("hello").unwrap();
    assert_eq!(pid, 2);
    let input = StructuredInput { atoms: vec![0, 1], slots: vec![SlotValue { kind: AtomKind::Var, payload: pid }] };
    let encoded = enc.encode_stream(&input);
    assert_eq!(encoded.toks, vec![EncTok::Template(0)]);
    assert_eq!(enc.decode(&encoded), "'x'hello");

    let cfg = TokenizeConfig { ws_run: false, strict_frozen: false, stopwords: Some(vec![s("x")]) };
    assert!(verify_lossless(&mut enc, "x hello", &cfg));
}

#[test]
fn importer_rejects_bad_files() {
    let atoms = vec![(s("VAR"), 0)];
    let tmpl = vec![(s("<T0>"), vec![s("VAR")])];
    assert!(matches!(load_v92_parts("9.1", &atoms, &tmpl), Err(LoadError::UnsupportedVersion)));
    assert!(load_v92_parts("9.3", &atoms, &tmpl).is_ok());
    let gap = vec![(s("<T0>"), vec![s("VAR")]), (s("<T2>"), vec![s("VAR")])];
    assert!(matches!(load_v92_parts("9.2", &atoms, &gap), Err(LoadError::NonContiguousTemplateIds)));
    let dup = vec![(s("<T0>"), vec![s("VAR")]), (s("<T0>"), vec![s("VAR")])];
    assert!(matches!(load_v92_parts("9.2", &atoms, &dup), Err(LoadError::NonContiguousTemplateIds)));
    assert!(matches!(load_v92_parts("9.2", &atoms, &vec![]), Err(LoadError::NoTemplates)));
    let missing = vec![(s("<T0>"), vec![s("CAP")])];
    assert!(matches!(load_v92_parts("9.2", &atoms, &missing), Err(LoadError::MissingPayload) | Err(LoadError::MissingAtom)));
    let bad_key = vec![(s("T0"), vec![s("VAR")])];
    assert!(matches!(load_v92_parts("9.2", &atoms, &bad_key), Err(LoadError::BadTemplateId)));
}

#[test]
fn interner_ids_must_match() {
    let ok = vec![(s("PUNC(.)"), 1), (s("VAR"), 0)];
    let intr = build_interner_preserve_atom_ids(&ok).unwrap();
    assert_eq!(intr.atom_info(0).0, AtomKind::Var);
    assert_eq!(intr.atom_info(1).0, AtomKind::Punc);
    assert_eq!(intr.payload_str(intr.atom_info(1).1), ".");
    let same_atom = vec![(s("WS(' ')"), 0), (s("WS( )"), 0)];
    assert_eq!(build_interner_preserve_atom_ids(&same_atom).unwrap().atom_count(), 1);
    let gap = vec![(s("VAR"), 0), (s("CAP"), 2)];
    assert!(matches!(build_interner_preserve_atom_ids(&gap), Err(LoadError::AtomIdMismatch)));
    let bad = vec![(s("???"), 0)];
    assert!(matches!(build_interner_preserve_atom_ids(&bad), Err(LoadError::BadAtom)));
}

#[test]
fn templates_sorted_by_key() {
    let intr = build_interner_preserve_atom_ids(&vec![(s("VAR"), 0), (s("PUNC(!)"), 1)]).unwrap();
    let items = vec![(s("<T1>"), vec![s("PUNC(!)")]), (s("<T0>"), vec![s("VAR"), s("PUNC(!)")])];
    let ts: Vec<Template> = build_templates(&intr, &items).unwrap();
    assert_eq!(ts[0].atoms, vec![0, 1]);
    assert_eq!(ts[0].slot_count, 1);
    assert_eq!(ts[0].slot_kinds, vec![AtomKind::Var]);
    assert_eq!(ts[1].atoms, vec![1]);
    assert_eq!(ts[1].slot_count, 0);
}

#[test]
fn lossless_check_on_fresh_encoder() {
    let mut enc = Encoder::from_templates(Interner::new(), vec![]);
    let cfg = TokenizeConfig::with_default_stopwords();
    assert!(verify_lossless(&mut enc, "It was the best of times; it was 1859.", &cfg));
}
