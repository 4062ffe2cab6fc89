//! Import of template dictionaries in the foreign v9.2 / v9.3 layout.

use vstd::prelude::*;
use vstd::set_lib::{lemma_int_range, lemma_len_subset, lemma_map_size_bound, set_int_range};
use crate::bundle::Encoder;
use crate::interner::{AtomId, AtomKind, Interner};
use crate::render::{is_slot_atom, slot_total, templates_known};
use crate::template::Template;
use crate::tokenize::{atom_known, chars_vec, extends, grows, lemma_known_atom_ids, string_of};
use crate::trie::{lemma_total_atoms_take, total_atoms};

verus! {

/// Why a foreign dictionary was rejected.
#[derive(Clone, Copy, Debug, PartialEq, Eq, Structural)]
pub enum LoadError {
    UnsupportedVersion,
    BadAtom,
    AtomIdMismatch,
    BadTemplateId,
    NoTemplates,
    NonContiguousTemplateIds,
    MissingPayload,
    MissingAtom,
    TooLarge,
}

/// Index of the first `c` in `s` at or after `i`, or -1.
pub open spec fn find_first(s: Seq<char>, c: char, i: int) -> int
    decreases s.len() - i,
{
    if i < 0 || i >= s.len() {
        -1
    } else if s[i] == c {
        i
    } else {
        find_first(s, c, i + 1)
    }
}

/// Index of the last `c` in `s` before `i`, or -1.
pub open spec fn find_last(s: Seq<char>, c: char, i: int) -> int
    decreases i,
{
    if i <= 0 || i > s.len() {
        -1
    } else if s[i - 1] == c {
        i - 1
    } else {
        find_last(s, c, i - 1)
    }
}

/// The atom-string grammar: `VAR`, `CAP`, `NUM`, or `LIT(p)`, `WS(p)`, `PUNC(p)` with the
/// payload between the first `(` and the last `)`; a `WS` payload may be single-quoted.
pub open spec fn parse_atom_spec(s: Seq<char>) -> Option<(AtomKind, Seq<char>)> {
    if s == seq!['V', 'A', 'R'] {
        Some((AtomKind::Var, Seq::empty()))
    } else if s == seq!['C', 'A', 'P'] {
        Some((AtomKind::Cap, Seq::empty()))
    } else if s == seq!['N', 'U', 'M'] {
        Some((AtomKind::Num, Seq::empty()))
    } else {
        let open = find_first(s, '(', 0);
        let close = find_last(s, ')', s.len() as int);
        if open < 0 || close < 0 || close <= open {
            None
        } else {
            let head = s.subrange(0, open);
            let body = s.subrange(open + 1, close);
            let kind = if head == seq!['L', 'I', 'T'] {
                Some(AtomKind::Lit)
            } else if head == seq!['W', 'S'] {
                Some(AtomKind::Ws)
            } else if head == seq!['P', 'U', 'N', 'C'] {
                Some(AtomKind::Punc)
            } else {
                None
            };
            match kind {
                None => None,
                Some(k) => if k == AtomKind::Ws && body.len() >= 2 && body[0] == '\'' && body.last() == '\'' {
                    Some((k, body.subrange(1, body.len() - 1)))
                } else {
                    Some((k, body))
                },
            }
        }
    }
}

fn seg_is(cs: &Vec<char>, lo: usize, hi: usize, w: &Vec<char>) -> (r: bool)
    requires
        lo <= hi <= cs@.len(),
    ensures
        r == (cs@.subrange(lo as int, hi as int) == w@),
{
    if hi - lo != w.len() {
        return false;
    }
    let mut k: usize = 0;
    while k < w.len()
        invariant
            hi - lo == w@.len(),
            lo <= hi <= cs@.len(),
            k <= w@.len(),
            forall|q: int| 0 <= q < k ==> cs@[lo + q] == w@[q],
        decreases w@.len() - k,
    {
        if cs[lo + k] != w[k] {
            assert(cs@.subrange(lo as int, hi as int)[k as int] != w@[k as int]);
            return false;
        }
        k = k + 1;
    }
    assert(cs@.subrange(lo as int, hi as int) =~= w@);
    true
}

/// Parses an atom string into its kind and payload text.
pub fn parse_atom_string(s: &str) -> (r: Result<(AtomKind, String), LoadError>)
    ensures
        r matches Ok((k, p)) ==> parse_atom_spec(s@) == Some((k, p@)),
        r is Err ==> parse_atom_spec(s@) is None && r == Err::<(AtomKind, String), LoadError>(LoadError::BadAtom),
{
    let cs = chars_vec(s);
    let n = cs.len();
    if seg_is(&cs, 0, n, &vec!['V', 'A', 'R']) {
        assert(cs@.subrange(0, n as int) =~= cs@);
        return Ok((AtomKind::Var, String::new()));
    }
    if seg_is(&cs, 0, n, &vec!['C', 'A', 'P']) {
        assert(cs@.subrange(0, n as int) =~= cs@);
        return Ok((AtomKind::Cap, String::new()));
    }
    if seg_is(&cs, 0, n, &vec!['N', 'U', 'M']) {
        assert(cs@.subrange(0, n as int) =~= cs@);
        return Ok((AtomKind::Num, String::new()));
    }
    assert(cs@.subrange(0, n as int) =~= cs@);
    let mut open: usize = 0;
    while open < n && cs[open] != '('
        invariant
            open <= n,
            n == cs@.len(),
            find_first(cs@, '(', 0) == find_first(cs@, '(', open as int),
        decreases n - open,
    {
        open = open + 1;
    }
    if open == n {
        return Err(LoadError::BadAtom);
    }
    let mut close: usize = n;
    while close > 0 && cs[close - 1] != ')'
        invariant
            close <= n,
            n == cs@.len(),
            find_last(cs@, ')', n as int) == find_last(cs@, ')', close as int),
        decreases close,
    {
        close = close - 1;
    }
    if close == 0 {
        return Err(LoadError::BadAtom);
    }
    let close = close - 1;
    if close <= open {
        return Err(LoadError::BadAtom);
    }
    let kind = if seg_is(&cs, 0, open, &vec!['L', 'I', 'T']) {
        AtomKind::Lit
    } else if seg_is(&cs, 0, open, &vec!['W', 'S']) {
        AtomKind::Ws
    } else if seg_is(&cs, 0, open, &vec!['P', 'U', 'N', 'C']) {
        AtomKind::Punc
    } else {
        return Err(LoadError::BadAtom);
    };
    let mut lo = open + 1;
    let mut hi = close;
    let ghost body = cs@.subrange(open + 1, close as int);
    if kind == AtomKind::Ws && hi - lo >= 2 && cs[lo] == '\'' && cs[hi - 1] == '\'' {
        lo = lo + 1;
        hi = hi - 1;
        assert(cs@.subrange(lo as int, hi as int) =~= body.subrange(1, body.len() - 1));
    }
    Ok((kind, string_of(&cs, lo, hi)))
}

/// The value of a run of decimal digits.
pub open spec fn digits_value(ds: Seq<char>) -> int
    decreases ds.len(),
{
    if ds.len() == 0 {
        0
    } else {
        digits_value(ds.drop_last()) * 10 + (ds.last() as u32 - '0' as u32)
    }
}

pub open spec fn is_digit(c: char) -> bool {
    '0' as u32 <= c as u32 <= '9' as u32
}

/// The text after an optional leading `+`.
pub open spec fn unsigned_digits(s: Seq<char>) -> Seq<char> {
    if s.len() > 0 && s[0] == '+' {
        s.subrange(1, s.len() as int)
    } else {
        s
    }
}

pub open spec fn all_digits(ds: Seq<char>) -> bool {
    forall|k: int| 0 <= k < ds.len() ==> is_digit(#[trigger] ds[k])
}

/// What `usize::from_str` accepts: an optional `+`, then at least one digit, with a
/// value that fits.
pub open spec fn parse_usize_spec(s: Seq<char>) -> Option<usize> {
    let ds = unsigned_digits(s);
    if ds.len() > 0 && all_digits(ds) && digits_value(ds) <= usize::MAX {
        Some(digits_value(ds) as usize)
    } else {
        None
    }
}

/// A template key `<T` digits `>`.
pub open spec fn parse_template_id_spec(s: Seq<char>) -> Option<usize> {
    if s.len() >= 3 && s[0] == '<' && s[1] == 'T' && s.last() == '>' {
        parse_usize_spec(s.subrange(2, s.len() - 1))
    } else {
        None
    }
}

proof fn lemma_digits_push(ds: Seq<char>, c: char)
    ensures
        digits_value(ds.push(c)) == digits_value(ds) * 10 + (c as u32 - '0' as u32),
{
    assert(ds.push(c).drop_last() =~= ds);
}

proof fn lemma_digits_nonneg(ds: Seq<char>)
    requires
        forall|k: int| 0 <= k < ds.len() ==> is_digit(#[trigger] ds[k]),
    ensures
        digits_value(ds) >= 0,
    decreases ds.len(),
{
    if ds.len() > 0 {
        lemma_digits_nonneg(ds.drop_last());
    }
}

/// Parses a template key such as `<T12>` into its number.
pub fn parse_template_id(s: &str) -> (r: Result<usize, LoadError>)
    ensures
        r matches Ok(v) ==> parse_template_id_spec(s@) == Some(v),
        r is Err ==> parse_template_id_spec(s@) is None && r == Err::<usize, LoadError>(LoadError::BadTemplateId),
{
    let cs = chars_vec(s);
    let n = cs.len();
    if n < 3 || cs[0] != '<' || cs[1] != 'T' || cs[n - 1] != '>' {
        return Err(LoadError::BadTemplateId);
    }
    let ghost inner = cs@.subrange(2, n - 1);
    let mut k: usize = 2;
    if cs[2] == '+' {
        k = 3;
    }
    let start = k;
    let ghost ds = cs@.subrange(start as int, n - 1);
    assert(ds =~= unsigned_digits(inner));
    assert(parse_template_id_spec(s@) == parse_usize_spec(inner));
    if start >= n - 1 {
        assert(ds.len() == 0);
        return Err(LoadError::BadTemplateId);
    }
    let mut v: usize = 0;
    while k < n - 1
        invariant
            start <= k <= n - 1,
            n == cs@.len(),
            n >= 3,
            ds == cs@.subrange(start as int, n - 1),
            cs@ == s@,
            inner == cs@.subrange(2, n - 1),
            ds == unsigned_digits(inner),
            parse_template_id_spec(s@) == parse_usize_spec(inner),
            forall|q: int| start <= q < k ==> is_digit(#[trigger] cs@[q]),
            v as int == digits_value(cs@.subrange(start as int, k as int)),
        decreases n - 1 - k,
    {
        let c = cs[k];
        if !('0' as u32 <= c as u32 && c as u32 <= '9' as u32) {
            assert(ds[k - start] == c);
            assert(!is_digit(ds[k - start]));
            assert(!all_digits(ds));
            assert(parse_usize_spec(inner) is None);
            return Err(LoadError::BadTemplateId);
        }
        let d = (c as u32 - '0' as u32) as usize;
        proof {
            lemma_digits_push(cs@.subrange(start as int, k as int), c);
            assert(cs@.subrange(start as int, k as int).push(c) =~= cs@.subrange(start as int, k + 1));
        }
        if v > (usize::MAX - d) / 10 {
            proof {
                assert(digits_value(cs@.subrange(start as int, k + 1)) > usize::MAX) by (nonlinear_arith)
                    requires v > (usize::MAX - d) / 10, digits_value(cs@.subrange(start as int, k + 1)) == v * 10 + d, 0 <= d <= 9;
                if all_digits(ds) {
                    assert forall|q: int| start <= q < n - 1 implies is_digit(#[trigger] cs@[q]) by {
                        assert(cs@[q] == ds[q - start]);
                    }
                    lemma_digits_bound(cs@, start as int, k + 1, n - 1);
                    assert(cs@.subrange(start as int, n - 1) == ds);
                    assert(digits_value(ds) > usize::MAX);
                }
                assert(parse_usize_spec(inner) is None);
            }
            return Err(LoadError::BadTemplateId);
        }
        v = v * 10 + d;
        k = k + 1;
    }
    proof {
        assert(cs@.subrange(start as int, k as int) =~= ds);
    }
    Ok(v)
}

/// Values of digit runs only grow as digits are added.
proof fn lemma_digits_bound(cs: Seq<char>, start: int, k: int, end: int)
    requires
        0 <= start <= k <= end <= cs.len(),
        forall|q: int| start <= q < end ==> is_digit(#[trigger] cs[q]),
    ensures
        digits_value(cs.subrange(start, end)) >= digits_value(cs.subrange(start, k)),
    decreases end - k,
{
    if k < end {
        lemma_digits_bound(cs, start, k + 1, end);
        lemma_digits_push(cs.subrange(start, k), cs[k]);
        assert(cs.subrange(start, k).push(cs[k]) =~= cs.subrange(start, k + 1));
        assert forall|q: int| 0 <= q < cs.subrange(start, k).len() implies is_digit(#[trigger] cs.subrange(start, k)[q]) by {
            assert(cs.subrange(start, k)[q] == cs[start + q]);
        }
        lemma_digits_nonneg(cs.subrange(start, k));
    }
}

/// Atom `id` of `intr` is the parsed atom: same kind, and its payload text is the
/// parsed payload (empty for a slot kind).
pub open spec fn declared_atom(intr: &Interner, id: u32, parsed: (AtomKind, Seq<char>)) -> bool {
    &&& id < intr.atoms().len()
    &&& intr.atoms()[id as int].0 == parsed.0
    &&& intr.payloads()[intr.atoms()[id as int].1 as int] == if parsed.0.is_slot_spec() {
        Seq::<char>::empty()
    } else {
        parsed.1
    }
}

/// Entry `(text, id)` is parsed and atom `id` of `intr` is what it declares.
pub open spec fn entry_kept(intr: &Interner, e: (String, u32)) -> bool {
    &&& parse_atom_spec(e.0@) is Some
    &&& declared_atom(intr, e.1, parse_atom_spec(e.0@)->0)
}

proof fn lemma_declared_extends(a: &Interner, b: &Interner, id: u32, parsed: (AtomKind, Seq<char>))
    requires
        a.wf(),
        grows(a, b),
        declared_atom(a, id, parsed),
    ensures
        declared_atom(b, id, parsed),
{
    assert(b.atoms()[id as int] == b.atoms().take(a.atoms().len() as int)[id as int]);
    let pid = a.atoms()[id as int].1;
    assert(b.payloads()[pid as int] == b.payloads().take(a.payloads().len() as int)[pid as int]);
}

/// Entry `j` sits in the bucket of its declared id.
pub open spec fn placed(buckets: Seq<Vec<usize>>, entries: Seq<(String, u32)>, j: int) -> bool {
    &&& entries[j].1 < buckets.len()
    &&& exists|k: int| 0 <= k < buckets[entries[j].1 as int]@.len() && buckets[entries[j].1 as int]@[k] == j
}

/// Interns the atom a parsed atom string stands for.
fn intern_parsed(intr: &mut Interner, kind: AtomKind, payload: &String) -> (r: Option<AtomId>)
    requires
        old(intr).wf(),
    ensures
        final(intr).wf(),
        extends(old(intr), final(intr)),
        r matches Some(id) ==> declared_atom(final(intr), id, (kind, payload@)),
        !old(intr).frozen_spec() && old(intr).payloads().len() < u32::MAX && old(intr).atoms().len()
            < u32::MAX ==> r is Some,
        final(intr).atoms().len() > old(intr).atoms().len() ==> r == Some(old(intr).atoms().len() as u32),
        r is Some ==> final(intr).payloads().len() - old(intr).payloads().len() <= final(intr).atoms().len()
            - old(intr).atoms().len(),
        final(intr).atoms().len() <= old(intr).atoms().len() + 1,
        r matches Some(id) && id < old(intr).atoms().len() ==> final(intr).atoms().len() == old(intr).atoms().len(),
        !atom_known(old(intr), kind, atom_text((kind, payload@))) && r is Some ==> r == Some(old(intr).atoms().len() as u32),
        forall|i: int| 0 <= i < old(intr).atoms().len() && #[trigger] declared_atom(old(intr), i as u32, (kind, payload@))
            ==> r == Some(i as u32),
{
    let ghost i0 = *intr;
    let empty = String::new();
    let text = if kind.is_slot() { empty.as_str() } else { payload.as_str() };
    let pid = intr.intern_payload(text);
    let ghost i1 = *intr;
    proof {
        assert(intr.payloads().take(i0.payloads().len() as int) =~= i0.payloads());
        assert(intr.atoms().take(i0.atoms().len() as int) =~= i0.atoms());
    }
    let pid = match pid {
        Some(p) => p,
        None => {
            return None;
        },
    };
    proof {
        assert(text@ == atom_text((kind, payload@)));
        if i1.payloads().len() > i0.payloads().len() {
            assert(pid == i0.payloads().len());
            assert(!i1.atoms().contains((kind, pid))) by {
                if i1.atoms().contains((kind, pid)) {
                    let q = choose|q: int| 0 <= q < i1.atoms().len() && i1.atoms()[q] == (kind, pid);
                    assert(i1.atoms()[q].1 < i0.payloads().len());
                }
            }
        }
        if i1.atoms().contains((kind, pid)) {
            let q = choose|q: int| 0 <= q < i1.atoms().len() && i1.atoms()[q] == (kind, pid);
            assert(i0.atoms()[q].0 == kind && i0.payloads()[i0.atoms()[q].1 as int] == text@);
        }
        assert forall|i: int| 0 <= i < i0.atoms().len() && #[trigger] declared_atom(&i0, i as u32, (kind, payload@))
            implies i1.atoms()[i] == (kind, pid) by {
            let pi = i0.atoms()[i].1;
            assert(i0.payloads()[pi as int] == text@);
            assert(i1.payloads()[pid as int] == text@);
            assert(pi < i0.payloads().len());
            if pi != pid {
                if pi < pid {
                    assert(i1.payloads()[pi as int] != i1.payloads()[pid as int]);
                } else {
                    assert(i1.payloads()[pid as int] != i1.payloads()[pi as int]);
                }
                assert(i1.payloads()[pi as int] == i0.payloads()[pi as int]);
            }
        }
    }
    let aid = intr.intern_atom(kind, pid);
    proof {
        assert(intr.payloads().take(i0.payloads().len() as int) =~= i0.payloads());
        assert(intr.atoms().take(i0.atoms().len() as int) =~= i0.atoms());
        assert(i1.payloads()[pid as int] == text@);
        assert forall|i: int| 0 <= i < i0.atoms().len() && #[trigger] declared_atom(&i0, i as u32, (kind, payload@))
            implies aid == Some(i as u32) by {
            assert(i1.atoms()[i] == (kind, pid));
            assert(i1.atoms().contains((kind, pid)));
            let id = aid->Some_0;
            if id as int != i {
                if (id as int) < i {
                    assert(i1.atoms()[id as int] != i1.atoms()[i]);
                } else {
                    assert(i1.atoms()[i] != i1.atoms()[id as int]);
                }
            }
        }
    }
    aid
}

/// The atom an entry declares: its kind and the payload text it carries.
pub open spec fn declared_of(e: (String, u32)) -> (AtomKind, Seq<char>) {
    let p = parse_atom_spec(e.0@)->0;
    (p.0, atom_text(p))
}

/// Some entry declares id `id`.
pub open spec fn id_present(entries: Seq<(String, u32)>, id: int) -> bool {
    exists|j: int| 0 <= j < entries.len() && entries[j].1 == id
}

/// The declared ids can all be kept: every entry parses, two entries share an id
/// exactly when they declare the same atom, the ids have no gaps, and every id is
/// below `u32::MAX`.
pub open spec fn ids_consistent(entries: Seq<(String, u32)>) -> bool {
    &&& forall|i: int| 0 <= i < entries.len() ==> parse_atom_spec((#[trigger] entries[i]).0@) is Some && entries[i].1 < u32::MAX
    &&& forall|i: int, j: int|
        0 <= i < entries.len() && 0 <= j < entries.len() ==> ((#[trigger] entries[i]).1 == (#[trigger] entries[j]).1)
            == (declared_of(entries[i]) == declared_of(entries[j]))
    &&& forall|i: int, id: int| 0 <= i < entries.len() && 0 <= id < (#[trigger] entries[i]).1 ==> #[trigger] id_present(entries, id)
}

/// An interner that keeps every entry and holds only declared ids shows the ids consistent.
proof fn lemma_kept_consistent(intr: &Interner, entries: Seq<(String, u32)>)
    requires
        intr.wf(),
        forall|i: int| 0 <= i < entries.len() ==> entry_kept(intr, #[trigger] entries[i]),
        forall|q: int| 0 <= q < intr.atoms().len() ==> #[trigger] id_present(entries, q),
    ensures
        ids_consistent(entries),
{
    assert forall|i: int| 0 <= i < entries.len() implies parse_atom_spec((#[trigger] entries[i]).0@) is Some
        && entries[i].1 < u32::MAX by {
        assert(entry_kept(intr, entries[i]));
    }
    assert forall|i: int, j: int| 0 <= i < entries.len() && 0 <= j < entries.len() implies ((#[trigger] entries[i]).1
        == (#[trigger] entries[j]).1) == (declared_of(entries[i]) == declared_of(entries[j])) by {
        assert(entry_kept(intr, entries[i]) && entry_kept(intr, entries[j]));
        let a = intr.atoms()[entries[i].1 as int];
        let b = intr.atoms()[entries[j].1 as int];
        if declared_of(entries[i]) == declared_of(entries[j]) {
            assert(a.0 == b.0);
            assert(intr.payloads()[a.1 as int] == intr.payloads()[b.1 as int]);
            if a.1 != b.1 {
                if a.1 < b.1 {
                    assert(intr.payloads()[a.1 as int] != intr.payloads()[b.1 as int]);
                } else {
                    assert(intr.payloads()[b.1 as int] != intr.payloads()[a.1 as int]);
                }
            }
            assert(a == b);
            if entries[i].1 != entries[j].1 {
                if entries[i].1 < entries[j].1 {
                    assert(intr.atoms()[entries[i].1 as int] != intr.atoms()[entries[j].1 as int]);
                } else {
                    assert(intr.atoms()[entries[j].1 as int] != intr.atoms()[entries[i].1 as int]);
                }
            }
        }
    }
    assert forall|i: int, id: int| 0 <= i < entries.len() && 0 <= id < (#[trigger] entries[i]).1 implies #[trigger] id_present(entries, id) by {
        assert(entry_kept(intr, entries[i]));
    }
}

/// Under consistent ids, every declared id is below the number of entries.
proof fn lemma_ids_below_len(entries: Seq<(String, u32)>, i: int)
    requires
        ids_consistent(entries),
        0 <= i < entries.len(),
    ensures
        entries[i].1 < entries.len(),
{
    let n = entries.len() as int;
    let id = entries[i].1 as int;
    let x = set_int_range(0, n);
    lemma_int_range(0, n);
    let f = |j: int| entries[j].1 as int;
    let y = x.map(f);
    lemma_map_size_bound(x, y, f);
    let below = set_int_range(0, id + 1);
    lemma_int_range(0, id + 1);
    assert forall|q: int| below.contains(q) implies y.contains(q) by {
        if q < id {
            assert(id_present(entries, q));
            let j = choose|j: int| 0 <= j < entries.len() && entries[j].1 == q;
            assert(x.contains(j) && f(j) == q);
        } else {
            assert(x.contains(i) && f(i) == q);
        }
    }
    lemma_len_subset(below, y);
}

/// Builds a frozen interner that gives every declared atom string its declared id,
/// interning them in increasing id order (equal ids in input order).
pub fn build_interner_preserve_atom_ids(str_to_id: &Vec<(String, u32)>) -> (r: Result<Interner, LoadError>)
    ensures
        r matches Ok(intr) ==> intr.wf() && intr.frozen_spec() && forall|i: int|
            0 <= i < str_to_id@.len() ==> entry_kept(&intr, #[trigger] str_to_id@[i]),
        r == Err::<Interner, LoadError>(LoadError::BadAtom) ==> exists|i: int|
            0 <= i < str_to_id@.len() && parse_atom_spec((#[trigger] str_to_id@[i]).0@) is None,
        r is Ok <==> ids_consistent(str_to_id@),
        r matches Ok(intr) ==> forall|q: int| 0 <= q < intr.atoms().len() ==> #[trigger] id_present(str_to_id@, q),
{
    let n = str_to_id.len();
    let mut buckets: Vec<Vec<usize>> = Vec::new();
    let mut b: usize = 0;
    while b < n
        invariant
            b <= n,
            buckets@.len() == b,
            forall|q: int| 0 <= q < b ==> (#[trigger] buckets@[q])@.len() == 0,
        decreases n - b,
    {
        buckets.push(Vec::new());
        b = b + 1;
    }
    let mut i: usize = 0;
    while i < n
        invariant
            i <= n,
            n == str_to_id@.len(),
            buckets@.len() == n,
            forall|q: int, k: int| 0 <= q < n && 0 <= k < (#[trigger] buckets@[q])@.len() ==> {
                let j = #[trigger] buckets@[q]@[k];
                &&& j < i
                &&& str_to_id@[j as int].1 == q
            },
            forall|j: int| 0 <= j < i ==> #[trigger] placed(buckets@, str_to_id@, j),
        decreases n - i,
    {
        let id = str_to_id[i].1 as usize;
        proof {
            if ids_consistent(str_to_id@) {
                lemma_ids_below_len(str_to_id@, i as int);
            }
        }
        if id >= n {
            return Err(LoadError::AtomIdMismatch);
        }
        let ghost bk0 = buckets@;
        buckets[id].push(i);
        proof {
            assert forall|j: int| 0 <= j < i + 1 implies #[trigger] placed(buckets@, str_to_id@, j) by {
                if j == i {
                    assert(buckets@[id as int]@[bk0[id as int]@.len() as int] == j);
                } else {
                    assert(placed(bk0, str_to_id@, j));
                    let q = str_to_id@[j].1 as int;
                    let k = choose|k: int| 0 <= k < bk0[q]@.len() && bk0[q]@[k] == j;
                    assert(buckets@[q]@[k] == j);
                }
            }
        }
        i = i + 1;
    }
    let mut intr = Interner::new();
    let mut b: usize = 0;
    while b < n
        invariant
            b <= n,
            n == str_to_id@.len(),
            buckets@.len() == n,
            intr.wf(),
            !intr.frozen_spec(),
            forall|j: int| 0 <= j < n ==> #[trigger] placed(buckets@, str_to_id@, j),
            forall|q: int, k: int| 0 <= q < n && 0 <= k < (#[trigger] buckets@[q])@.len() ==> {
                let j = #[trigger] buckets@[q]@[k];
                &&& j < n
                &&& str_to_id@[j as int].1 == q
            },
            forall|q: int, k: int| 0 <= q < b && 0 <= k < (#[trigger] buckets@[q])@.len() ==> entry_kept(
                &intr,
                str_to_id@[#[trigger] buckets@[q]@[k] as int],
            ),
            ids_consistent(str_to_id@) ==> intr.payloads().len() <= intr.atoms().len(),
            ids_consistent(str_to_id@) ==> intr.atoms().len() <= b,
            forall|q: int| 0 <= q < intr.atoms().len() ==> #[trigger] id_present(str_to_id@, q),
            ids_consistent(str_to_id@) ==> forall|q: int| 0 <= q < b && #[trigger] id_present(str_to_id@, q) ==> q < intr.atoms().len(),
        decreases n - b,
    {
        let bucket = &buckets[b];
        let mut k: usize = 0;
        while k < bucket.len()
            invariant
                b < n,
                n == str_to_id@.len(),
                buckets@.len() == n,
                bucket == buckets@[b as int],
                k <= bucket@.len(),
                intr.wf(),
                !intr.frozen_spec(),
                forall|q: int, k2: int| 0 <= q < n && 0 <= k2 < (#[trigger] buckets@[q])@.len() ==> {
                    let j = #[trigger] buckets@[q]@[k2];
                    &&& j < n
                    &&& str_to_id@[j as int].1 == q
                },
                forall|q: int, k2: int| 0 <= q < b && 0 <= k2 < (#[trigger] buckets@[q])@.len() ==> entry_kept(
                    &intr,
                    str_to_id@[#[trigger] buckets@[q]@[k2] as int],
                ),
                forall|k2: int| 0 <= k2 < k ==> entry_kept(&intr, str_to_id@[#[trigger] bucket@[k2] as int]),
                forall|j: int| 0 <= j < n ==> #[trigger] placed(buckets@, str_to_id@, j),
                ids_consistent(str_to_id@) ==> intr.payloads().len() <= intr.atoms().len(),
                ids_consistent(str_to_id@) ==> intr.atoms().len() <= b + 1,
                forall|q: int| 0 <= q < intr.atoms().len() ==> #[trigger] id_present(str_to_id@, q),
                ids_consistent(str_to_id@) ==> forall|q: int| 0 <= q < b && #[trigger] id_present(str_to_id@, q) ==> q < intr.atoms().len(),
                ids_consistent(str_to_id@) && k > 0 ==> intr.atoms().len() == b + 1,
                ids_consistent(str_to_id@) && k == 0 ==> intr.atoms().len() <= b,
            decreases bucket@.len() - k,
        {
            let j = bucket[k];
            assert(buckets@[b as int]@[k as int] == j);
            let entry = &str_to_id[j];
            let parsed = parse_atom_string(entry.0.as_str());
            let (kind, payload) = match parsed {
                Ok(kp) => kp,
                Err(e) => {
                    return Err(e);
                },
            };
            let ghost i0 = intr;
            proof {
                if ids_consistent(str_to_id@) {
                    let e = str_to_id@[j as int];
                    assert(str_to_id@[j as int].1 < u32::MAX);
                    assert(e.1 == b);
                    assert(declared_of(e) == (kind, atom_text((kind, payload@))));
                    if k == 0 {
                        assert forall|q: int| 0 <= q < b implies #[trigger] id_present(str_to_id@, q) by {
                            assert(0 <= q < str_to_id@[j as int].1);
                        }
                        if b > 0 {
                            assert(id_present(str_to_id@, b - 1));
                        }
                        if atom_known(&intr, kind, atom_text((kind, payload@))) {
                            let q = choose|q: int| 0 <= q < intr.atoms().len() && (#[trigger] intr.atoms()[q]).0 == kind
                                && intr.payloads()[intr.atoms()[q].1 as int] == atom_text((kind, payload@));
                            assert(id_present(str_to_id@, q));
                            let j2 = choose|j2: int| 0 <= j2 < str_to_id@.len() && str_to_id@[j2].1 == q;
                            assert(placed(buckets@, str_to_id@, j2));
                            let k2 = choose|k2: int| 0 <= k2 < buckets@[q]@.len() && buckets@[q]@[k2] == j2;
                            assert(entry_kept(&intr, str_to_id@[buckets@[q]@[k2] as int]));
                            assert(declared_of(str_to_id@[j2]) == declared_of(e));
                        }
                    } else {
                        let j0 = bucket@[0];
                        assert(entry_kept(&intr, str_to_id@[bucket@[0] as int]));
                        assert(str_to_id@[j0 as int].1 == b);
                        assert(declared_of(str_to_id@[j0 as int]) == declared_of(e));
                        assert(declared_atom(&intr, b as u32, (kind, payload@)));
                    }
                }
            }
            let got = intern_parsed(&mut intr, kind, &payload);
            let got = match got {
                Some(g) => g,
                None => {
                    return Err(LoadError::TooLarge);
                },
            };
            if got as usize != b {
                return Err(LoadError::AtomIdMismatch);
            }
            proof {
                assert forall|q: int, k2: int| 0 <= q < b && 0 <= k2 < (#[trigger] buckets@[q])@.len() implies entry_kept(
                    &intr,
                    str_to_id@[#[trigger] buckets@[q]@[k2] as int],
                ) by {
                    let e = str_to_id@[buckets@[q]@[k2] as int];
                    lemma_declared_extends(&i0, &intr, e.1, parse_atom_spec(e.0@)->0);
                }
                assert forall|k2: int| 0 <= k2 < k + 1 implies entry_kept(&intr, str_to_id@[#[trigger] bucket@[k2] as int]) by {
                    if k2 < k {
                        let e = str_to_id@[bucket@[k2] as int];
                        lemma_declared_extends(&i0, &intr, e.1, parse_atom_spec(e.0@)->0);
                    } else {
                        assert(str_to_id@[j as int].1 == b);
                    }
                }
                assert(id_present(str_to_id@, b as int)) by {
                    assert(str_to_id@[j as int].1 == b);
                }
            }
            k = k + 1;
        }
        proof {
            if ids_consistent(str_to_id@) && id_present(str_to_id@, b as int) {
                let j2 = choose|j2: int| 0 <= j2 < str_to_id@.len() && str_to_id@[j2].1 == b;
                assert(placed(buckets@, str_to_id@, j2));
                assert(bucket@.len() > 0);
            }
            assert forall|q: int, k2: int| 0 <= q < b + 1 && 0 <= k2 < (#[trigger] buckets@[q])@.len() implies entry_kept(
                &intr,
                str_to_id@[#[trigger] buckets@[q]@[k2] as int],
            ) by {
                if q == b {
                    assert(buckets@[q]@[k2] == bucket@[k2]);
                }
            }
        }
        b = b + 1;
    }
    let ghost i0 = intr;
    intr.freeze();
    proof {
        assert(intr.payloads().take(i0.payloads().len() as int) =~= i0.payloads());
        assert(intr.atoms().take(i0.atoms().len() as int) =~= i0.atoms());
        assert forall|i: int| 0 <= i < str_to_id@.len() implies entry_kept(&intr, #[trigger] str_to_id@[i]) by {
            assert(placed(buckets@, str_to_id@, i));
            let q = str_to_id@[i].1 as int;
            let k = choose|k: int| 0 <= k < buckets@[q]@.len() && buckets@[q]@[k] == i;
            assert(entry_kept(&i0, str_to_id@[buckets@[q]@[k] as int]));
            lemma_declared_extends(&i0, &intr, str_to_id@[i].1, parse_atom_spec(str_to_id@[i].0@)->0);
        }
        assert(intr.atoms() == i0.atoms());
        lemma_kept_consistent(&intr, str_to_id@);
    }
    Ok(intr)
}

/// The kinds of the slot atoms of `atoms`, in order.
pub open spec fn slot_kinds_of(intr: &Interner, atoms: Seq<u32>) -> Seq<AtomKind>
    decreases atoms.len(),
{
    if atoms.len() == 0 {
        Seq::empty()
    } else if is_slot_atom(intr, atoms.last()) {
        slot_kinds_of(intr, atoms.drop_last()).push(intr.atoms()[atoms.last() as int].0)
    } else {
        slot_kinds_of(intr, atoms.drop_last())
    }
}

/// Template `t` is the list of atom strings `strs`, each resolved against `intr`, with
/// one slot per slot atom.
pub open spec fn template_from(intr: &Interner, t: Template, strs: Seq<String>) -> bool {
    &&& t.atoms@.len() == strs.len()
    &&& forall|j: int| 0 <= j < strs.len() ==> {
        &&& parse_atom_spec((#[trigger] strs[j])@) is Some
        &&& declared_atom(intr, t.atoms@[j], parse_atom_spec(strs[j]@)->0)
    }
    &&& t.slot_count as nat == slot_total(intr, t.atoms@)
    &&& t.slot_kinds@ == slot_kinds_of(intr, t.atoms@)
}

/// The payload text an atom string's atom carries: empty for a slot kind.
pub open spec fn atom_text(parsed: (AtomKind, Seq<char>)) -> Seq<char> {
    if parsed.0.is_slot_spec() {
        Seq::empty()
    } else {
        parsed.1
    }
}

/// Number of atom strings that parse to a slot kind.
pub open spec fn slot_strs(strs: Seq<String>) -> nat
    decreases strs.len(),
{
    if strs.len() == 0 {
        0
    } else {
        slot_strs(strs.drop_last()) + if parse_atom_spec(strs.last()@) matches Some(p) && p.0.is_slot_spec() {
            1nat
        } else {
            0nat
        }
    }
}

/// Every atom string parses to an atom the interner knows, with at most 255 slots.
pub open spec fn template_resolvable(intr: &Interner, strs: Seq<String>) -> bool {
    &&& forall|j: int| 0 <= j < strs.len() ==> (parse_atom_spec((#[trigger] strs[j])@) matches Some(p) && atom_known(
        intr,
        p.0,
        atom_text(p),
    ))
    &&& slot_strs(strs) <= 255
}

/// Resolves one template's atom strings against a finished interner.
fn build_template(intr: &Interner, strs: &Vec<String>) -> (r: Result<Template, LoadError>)
    requires
        intr.wf(),
    ensures
        r matches Ok(t) ==> template_from(intr, t, strs@),
        r matches Err(e) ==> e == LoadError::BadAtom || e == LoadError::MissingPayload || e == LoadError::MissingAtom
            || e == LoadError::TooLarge,
        template_resolvable(intr, strs@) ==> r is Ok,
{
    let mut atoms: Vec<AtomId> = Vec::new();
    let mut slot_kinds: Vec<AtomKind> = Vec::new();
    let mut j: usize = 0;
    proof {
        assert(atoms@ =~= Seq::<u32>::empty());
    }
    while j < strs.len()
        invariant
            intr.wf(),
            j <= strs@.len(),
            atoms@.len() == j,
            slot_kinds@.len() == slot_total(intr, atoms@),
            slot_kinds@.len() == slot_strs(strs@.take(j as int)),
            slot_kinds@ == slot_kinds_of(intr, atoms@),
            forall|q: int| 0 <= q < j ==> {
                &&& parse_atom_spec((#[trigger] strs@[q])@) is Some
                &&& declared_atom(intr, atoms@[q], parse_atom_spec(strs@[q]@)->0)
            },
        decreases strs@.len() - j,
    {
        let (kind, payload) = match parse_atom_string(strs[j].as_str()) {
            Ok(kp) => kp,
            Err(e) => {
                return Err(e);
            },
        };
        let empty = String::new();
        let text = if kind.is_slot() { empty.as_str() } else { payload.as_str() };
        proof {
            assert(strs@.take(j + 1).drop_last() =~= strs@.take(j as int));
            assert(strs@.take(j + 1).last() == strs@[j as int]);
            if template_resolvable(intr, strs@) {
                assert(atom_known(intr, kind, text@));
                lemma_known_atom_ids(intr, kind, text@);
            }
        }
        let pid = match intr.payload_id(text) {
            Some(p) => p,
            None => {
                return Err(LoadError::MissingPayload);
            },
        };
        let aid = match intr.atom_id(kind, pid) {
            Some(a) => a,
            None => {
                return Err(LoadError::MissingAtom);
            },
        };
        let ghost a0 = atoms@;
        proof {
            crate::decode::lemma_render_push(intr, a0, aid, Seq::empty());
            assert(a0.push(aid).drop_last() =~= a0);
        }
        atoms.push(aid);
        if kind.is_slot() {
            slot_kinds.push(kind);
        }
        j = j + 1;
    }
    proof {
        assert(strs@.take(j as int) =~= strs@);
    }
    if slot_kinds.len() > 255 {
        return Err(LoadError::TooLarge);
    }
    Ok(Template::new(atoms, slot_kinds))
}

/// Number of atom strings over all templates of a dictionary.
pub open spec fn total_strs(items: Seq<(String, Vec<String>)>) -> nat
    decreases items.len(),
{
    if items.len() == 0 {
        0
    } else {
        total_strs(items.drop_last()) + items.last().1@.len()
    }
}

/// Number of atom strings of the templates `g` picks, in that order.
pub open spec fn picked_strs(items: Seq<(String, Vec<String>)>, g: Seq<int>) -> nat
    decreases g.len(),
{
    if g.len() == 0 {
        0
    } else {
        picked_strs(items, g.drop_last()) + items[g.last()].1@.len()
    }
}

proof fn lemma_picked_remove(items: Seq<(String, Vec<String>)>, g: Seq<int>, k: int)
    requires
        0 <= k < g.len(),
    ensures
        picked_strs(items, g) == picked_strs(items, g.remove(k)) + items[g[k]].1@.len(),
    decreases g.len(),
{
    if k == g.len() - 1 {
        assert(g.remove(k) =~= g.drop_last());
    } else {
        lemma_picked_remove(items, g.drop_last(), k);
        assert(g.remove(k).drop_last() =~= g.drop_last().remove(k));
        assert(g.remove(k).last() == g.last());
    }
}

/// Picking distinct templates among the first `n` counts no more strings than all of them.
proof fn lemma_picked_bound(items: Seq<(String, Vec<String>)>, g: Seq<int>, n: int)
    requires
        0 <= n <= items.len(),
        forall|k: int| 0 <= k < g.len() ==> 0 <= #[trigger] g[k] < n,
        forall|k: int, l: int| 0 <= k < l < g.len() ==> #[trigger] g[k] != #[trigger] g[l],
    ensures
        picked_strs(items, g) <= total_strs(items.take(n)),
    decreases n,
{
    if n == 0 {
        if g.len() > 0 {
            let x = g[0];
            assert(0 <= x && x < n);
        }
    } else {
        assert(items.take(n).drop_last() =~= items.take(n - 1));
        if exists|k: int| 0 <= k < g.len() && g[k] == n - 1 {
            let k = choose|k: int| 0 <= k < g.len() && g[k] == n - 1;
            lemma_picked_remove(items, g, k);
            let h = g.remove(k);
            assert forall|a: int| 0 <= a < h.len() implies 0 <= #[trigger] h[a] < n - 1 by {
                if a < k {
                    assert(h[a] == g[a]);
                } else {
                    assert(h[a] == g[a + 1]);
                }
            }
            assert forall|a: int, b: int| 0 <= a < b < h.len() implies #[trigger] h[a] != #[trigger] h[b] by {
                let a2 = if a < k { a } else { a + 1 };
                let b2 = if b < k { b } else { b + 1 };
                assert(h[a] == g[a2] && h[b] == g[b2]);
            }
            lemma_picked_bound(items, h, n - 1);
        } else {
            lemma_picked_bound(items, g, n - 1);
        }
    }
}

proof fn lemma_total_picked(ts: Seq<Template>, items: Seq<(String, Vec<String>)>, g: Seq<int>)
    requires
        g.len() == ts.len(),
        forall|t: int| 0 <= t < ts.len() ==> (#[trigger] ts[t]).atoms@.len() == items[g[t]].1@.len(),
    ensures
        total_atoms(ts) == picked_strs(items, g),
    decreases ts.len(),
{
    if ts.len() > 0 {
        lemma_total_picked(ts.drop_last(), items, g.drop_last());
    }
}

/// Some key is `<T t>`.
pub open spec fn key_present(items: Seq<(String, Vec<String>)>, t: int) -> bool {
    exists|i: int| 0 <= i < items.len() && parse_template_id_spec(items[i].0@) == Some(t as usize)
}

/// The keys are `<T i>` for exactly `i` in `0..n`, one each, and every template resolves.
pub open spec fn templates_importable(intr: &Interner, items: Seq<(String, Vec<String>)>) -> bool {
    &&& items.len() >= 1
    &&& forall|i: int| 0 <= i < items.len() ==> (parse_template_id_spec((#[trigger] items[i]).0@) matches Some(t) && t
        < items.len())
    &&& forall|i: int, j: int|
        0 <= i < j < items.len() ==> parse_template_id_spec((#[trigger] items[i]).0@) != parse_template_id_spec(
            (#[trigger] items[j]).0@,
        )
    &&& forall|t: int| 0 <= t < items.len() ==> #[trigger] key_present(items, t)
    &&& forall|i: int| 0 <= i < items.len() ==> template_resolvable(intr, (#[trigger] items[i]).1@)
}

/// Orders the templates by their `<T n>` keys, which must be exactly `0..n`, and
/// resolves their atom strings against `intr`.
pub fn build_templates(intr: &Interner, id_to_template: &Vec<(String, Vec<String>)>) -> (r: Result<Vec<Template>, LoadError>)
    requires
        intr.wf(),
    ensures
        r matches Ok(ts) ==> {
            &&& ts@.len() == id_to_template@.len()
            &&& templates_known(intr, ts@)
            &&& forall|i: int| 0 <= i < id_to_template@.len() ==> {
                let e = #[trigger] id_to_template@[i];
                &&& parse_template_id_spec(e.0@) matches Some(t) && t < ts@.len()
                &&& template_from(intr, ts@[parse_template_id_spec(e.0@)->0 as int], e.1@)
            }
        },
        id_to_template@.len() == 0 ==> r == Err::<Vec<Template>, LoadError>(LoadError::NoTemplates)
            || r == Err::<Vec<Template>, LoadError>(LoadError::BadTemplateId),
        r == Err::<Vec<Template>, LoadError>(LoadError::BadTemplateId) ==> exists|i: int|
            0 <= i < id_to_template@.len() && parse_template_id_spec((#[trigger] id_to_template@[i]).0@) is None,
        templates_importable(intr, id_to_template@) ==> r is Ok,
        r is Ok ==> forall|i: int, j: int|
            0 <= i < j < id_to_template@.len() ==> parse_template_id_spec((#[trigger] id_to_template@[i]).0@)
                != parse_template_id_spec((#[trigger] id_to_template@[j]).0@),
        r matches Ok(ts) ==> total_atoms(ts@) <= total_strs(id_to_template@),
{
    let n = id_to_template.len();
    let mut tids: Vec<usize> = Vec::new();
    let mut i: usize = 0;
    while i < n
        invariant
            i <= n,
            n == id_to_template@.len(),
            tids@.len() == i,
            forall|q: int| 0 <= q < i ==> parse_template_id_spec((#[trigger] id_to_template@[q]).0@) == Some(tids@[q]),
        decreases n - i,
    {
        let t = match parse_template_id(id_to_template[i].0.as_str()) {
            Ok(t) => t,
            Err(e) => {
                return Err(e);
            },
        };
        tids.push(t);
        i = i + 1;
    }
    if n == 0 {
        return Err(LoadError::NoTemplates);
    }
    let mut slot: Vec<Option<usize>> = Vec::new();
    let mut q: usize = 0;
    while q < n
        invariant
            q <= n,
            slot@.len() == q,
            forall|k: int| 0 <= k < q ==> (#[trigger] slot@[k]) is None,
        decreases n - q,
    {
        slot.push(None);
        q = q + 1;
    }
    let mut i: usize = 0;
    while i < n
        invariant
            i <= n,
            n == id_to_template@.len(),
            tids@.len() == n,
            slot@.len() == n,
            intr.wf(),
            forall|q: int| 0 <= q < n ==> parse_template_id_spec((#[trigger] id_to_template@[q]).0@) == Some(tids@[q]),
            forall|k: int| 0 <= k < n ==> ((#[trigger] slot@[k]) matches Some(j) ==> j < i && tids@[j as int] == k),
            forall|j: int| 0 <= j < i ==> #[trigger] tids@[j] < n && slot@[tids@[j] as int] == Some(j as usize),
        decreases n - i,
    {
        let t = tids[i];
        proof {
            if templates_importable(intr, id_to_template@) {
                assert(parse_template_id_spec(id_to_template@[i as int].0@) == Some(t));
                if slot@[t as int] is Some {
                    let j = slot@[t as int]->Some_0;
                    assert(parse_template_id_spec(id_to_template@[j as int].0@) == Some(t));
                }
            }
        }
        if t >= n {
            return Err(LoadError::NonContiguousTemplateIds);
        }
        if slot[t].is_some() {
            return Err(LoadError::NonContiguousTemplateIds);
        }
        let ghost s0 = slot@;
        slot.set(t, Some(i));
        proof {
            assert forall|j: int| 0 <= j < i + 1 implies #[trigger] tids@[j] < n && slot@[tids@[j] as int] == Some(j as usize) by {
                if j < i {
                    assert(tids@[j] < n);
                    assert(s0[tids@[j] as int] == Some(j as usize));
                    assert(tids@[j] != t);
                }
            }
        }
        i = i + 1;
    }
    let mut out: Vec<Template> = Vec::new();
    let mut t: usize = 0;
    while t < n
        invariant
            t <= n,
            n == id_to_template@.len(),
            intr.wf(),
            tids@.len() == n,
            slot@.len() == n,
            forall|q: int| 0 <= q < n ==> parse_template_id_spec((#[trigger] id_to_template@[q]).0@) == Some(tids@[q]),
            forall|k: int| 0 <= k < n ==> ((#[trigger] slot@[k]) matches Some(j) ==> j < n && tids@[j as int] == k),
            forall|j: int| 0 <= j < n ==> #[trigger] tids@[j] < n && slot@[tids@[j] as int] == Some(j as usize),
            out@.len() == t,
            forall|k: int| 0 <= k < t ==> ((#[trigger] slot@[k]) matches Some(j) && template_from(intr, out@[k], id_to_template@[j as int].1@)),
        decreases n - t,
    {
        proof {
            if templates_importable(intr, id_to_template@) {
                assert(key_present(id_to_template@, t as int));
                let i = choose|i: int| 0 <= i < id_to_template@.len() && parse_template_id_spec(id_to_template@[i].0@)
                    == Some(t as usize);
                assert(tids@[i] == t);
                assert(slot@[tids@[i] as int] == Some(i as usize));
            }
        }
        let j = match slot[t] {
            Some(j) => j,
            None => {
                return Err(LoadError::NonContiguousTemplateIds);
            },
        };
        proof {
            if templates_importable(intr, id_to_template@) {
                assert(template_resolvable(intr, id_to_template@[j as int].1@));
            }
        }
        let tmpl = match build_template(intr, &id_to_template[j].1) {
            Ok(tm) => tm,
            Err(e) => {
                return Err(e);
            },
        };
        out.push(tmpl);
        t = t + 1;
    }
    proof {
        assert forall|tt: int, j: int| 0 <= tt < out@.len() && 0 <= j < out@[tt].atoms@.len()
            implies #[trigger] out@[tt].atoms@[j] < intr.atoms().len() by {
            let src = slot@[tt]->Some_0;
            assert(template_from(intr, out@[tt], id_to_template@[src as int].1@));
            let strs = id_to_template@[src as int].1@;
            assert(parse_atom_spec(strs[j]@) is Some);
        }
        let g = Seq::new(n as nat, |t: int| slot@[t]->Some_0 as int);
        assert forall|t: int| 0 <= t < out@.len() implies (#[trigger] out@[t]).atoms@.len() == id_to_template@[g[t]].1@.len() by {
            assert(slot@[t] matches Some(j) && template_from(intr, out@[t], id_to_template@[j as int].1@));
        }
        lemma_total_picked(out@, id_to_template@, g);
        assert forall|k: int, l: int| 0 <= k < l < g.len() implies #[trigger] g[k] != #[trigger] g[l] by {
            assert(slot@[k] matches Some(j) && tids@[j as int] == k);
            assert(slot@[l] matches Some(j) && tids@[j as int] == l);
        }
        assert forall|k: int| 0 <= k < g.len() implies 0 <= #[trigger] g[k] < n by {
            assert(slot@[k] matches Some(j) && j < n);
        }
        lemma_picked_bound(id_to_template@, g, n as int);
        assert(id_to_template@.take(n as int) =~= id_to_template@);
        assert forall|i: int, j: int|
            0 <= i < j < id_to_template@.len() implies parse_template_id_spec((#[trigger] id_to_template@[i]).0@)
                != parse_template_id_spec((#[trigger] id_to_template@[j]).0@) by {
            assert(tids@[i] < n && slot@[tids@[i] as int] == Some(i as usize));
            assert(tids@[j] < n && slot@[tids@[j] as int] == Some(j as usize));
        }
        assert forall|i: int| 0 <= i < id_to_template@.len() implies {
            let e = #[trigger] id_to_template@[i];
            &&& parse_template_id_spec(e.0@) matches Some(t) && t < out@.len()
            &&& template_from(intr, out@[parse_template_id_spec(e.0@)->0 as int], e.1@)
        } by {
            assert(tids@[i] < n);
            assert(slot@[tids@[i] as int] == Some(i as usize));
        }
    }
    Ok(out)
}

/// Some entry declares the atom of this parsed atom string.
pub open spec fn atom_declared(entries: Seq<(String, u32)>, p: (AtomKind, Seq<char>)) -> bool {
    exists|i: int| 0 <= i < entries.len() && #[trigger] declared_of(entries[i]) == (p.0, atom_text(p))
}

/// A foreign dictionary that imports: supported version, consistent atom ids, template
/// keys exactly `0..n`, and template atom strings that parse to declared atoms, with at
/// most 255 slots each.
pub open spec fn file_importable(
    version: Seq<char>,
    entries: Seq<(String, u32)>,
    items: Seq<(String, Vec<String>)>,
) -> bool {
    &&& version_supported(version)
    &&& ids_consistent(entries)
    &&& items.len() >= 1
    &&& forall|i: int| 0 <= i < items.len() ==> (parse_template_id_spec((#[trigger] items[i]).0@) matches Some(t) && t
        < items.len())
    &&& forall|i: int, j: int|
        0 <= i < j < items.len() ==> parse_template_id_spec((#[trigger] items[i]).0@) != parse_template_id_spec(
            (#[trigger] items[j]).0@,
        )
    &&& forall|t: int| 0 <= t < items.len() ==> #[trigger] key_present(items, t)
    &&& forall|i: int, j: int|
        0 <= i < items.len() && 0 <= j < items[i].1@.len() ==> (parse_atom_spec((#[trigger] items[i].1@[j])@) matches Some(
            p,
        ) && atom_declared(entries, p))
    &&& forall|i: int| 0 <= i < items.len() ==> slot_strs((#[trigger] items[i]).1@) <= 255
}

/// The accepted version tags, `9.2` and `9.3`.
pub open spec fn version_supported(v: Seq<char>) -> bool {
    v == seq!['9', '.', '2'] || v == seq!['9', '.', '3']
}

/// Builds an encoder from a foreign dictionary's parts: its version tag, its atom
/// strings with their ids, and its templates under `<T n>` keys. The interner is
/// frozen and keeps every declared id.
pub fn load_v92_parts(
    version: &str,
    str_to_id: &Vec<(String, u32)>,
    id_to_template: &Vec<(String, Vec<String>)>,
) -> (r: Result<Encoder, LoadError>)
    ensures
        !version_supported(version@) <==> r == Err::<Encoder, LoadError>(LoadError::UnsupportedVersion),
        r matches Ok(enc) ==> {
            &&& enc.wf()
            &&& enc.interner.frozen_spec()
            &&& forall|i: int| 0 <= i < str_to_id@.len() ==> entry_kept(&enc.interner, #[trigger] str_to_id@[i])
            &&& enc.templates@.len() == id_to_template@.len()
            &&& forall|i: int| 0 <= i < id_to_template@.len() ==> {
                let e = #[trigger] id_to_template@[i];
                &&& parse_template_id_spec(e.0@) matches Some(t) && t < enc.templates@.len()
                &&& template_from(&enc.interner, enc.templates@[parse_template_id_spec(e.0@)->0 as int], e.1@)
            }
        },
        file_importable(version@, str_to_id@, id_to_template@) && id_to_template@.len() <= i32::MAX
            && total_strs(id_to_template@) < u32::MAX ==> r is Ok,
{
    let vs = chars_vec(version);
    let n = vs.len();
    let ok_version = seg_is(&vs, 0, n, &vec!['9', '.', '2']) || seg_is(&vs, 0, n, &vec!['9', '.', '3']);
    assert(vs@.subrange(0, n as int) =~= vs@);
    if !ok_version {
        return Err(LoadError::UnsupportedVersion);
    }
    assert(version_supported(version@));
    let interner = match build_interner_preserve_atom_ids(str_to_id) {
        Ok(i) => i,
        Err(e) => {
            return Err(if e == LoadError::UnsupportedVersion { LoadError::BadAtom } else { e });
        },
    };
    proof {
        if file_importable(version@, str_to_id@, id_to_template@) {
            let items = id_to_template@;
            assert forall|i: int| 0 <= i < items.len() implies template_resolvable(&interner, (#[trigger] items[i]).1@) by {
                let strs = items[i].1@;
                assert forall|j: int| 0 <= j < strs.len() implies (parse_atom_spec((#[trigger] strs[j])@) matches Some(p)
                    && atom_known(&interner, p.0, atom_text(p))) by {
                    assert(strs[j] == items[i].1@[j]);
                    let p = parse_atom_spec(strs[j]@)->0;
                    assert(atom_declared(str_to_id@, p));
                    let q = choose|q: int| 0 <= q < str_to_id@.len() && #[trigger] declared_of(str_to_id@[q]) == (p.0, atom_text(p));
                    let e = str_to_id@[q];
                    assert(entry_kept(&interner, e));
                    assert(interner.atoms()[e.1 as int].0 == p.0);
                }
            }
            assert(templates_importable(&interner, items));
        }
    }
    let templates = match build_templates(&interner, id_to_template) {
        Ok(t) => t,
        Err(e) => {
            return Err(if e == LoadError::UnsupportedVersion { LoadError::BadAtom } else { e });
        },
    };
    if templates.len() > 2147483647 {
        return Err(LoadError::TooLarge);
    }
    let mut total: u64 = 0;
    let mut k: usize = 0;
    proof {
        assert(templates@.take(0) =~= Seq::<Template>::empty());
    }
    while k < templates.len()
        invariant
            version_supported(version@),
            file_importable(version@, str_to_id@, id_to_template@) && id_to_template@.len() <= i32::MAX
                && total_strs(id_to_template@) < u32::MAX ==> total_atoms(templates@) < u32::MAX,
            k <= templates@.len(),
            total as int == total_atoms(templates@.take(k as int)),
            total < u32::MAX,
        decreases templates@.len() - k,
    {
        proof {
            assert(templates@.take(k + 1).drop_last() =~= templates@.take(k as int));
        }
        proof {
            lemma_total_atoms_take(templates@, k as int);
        }
        let len = templates[k].atoms.len() as u64;
        if len >= 4294967295u64 - total {
            return Err(LoadError::TooLarge);
        }
        total = total + len;
        k = k + 1;
    }
    proof {
        assert(templates@.take(k as int) =~= templates@);
    }
    Ok(Encoder::from_templates(interner, templates))
}
} // verus!
