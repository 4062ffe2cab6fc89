//! Bidirectional symbol tables: payload strings and (kind, payload) atoms to dense ids.

use vstd::prelude::*;

verus! {

pub type AtomId = u32;

pub type PayloadId = u32;

/// Classification of an atom.
#[derive(Clone, Copy, Debug, PartialEq, Eq, Hash, Structural)]
pub enum AtomKind {
    Lit,
    Ws,
    Punc,
    Var,
    Cap,
    Num,
    WsRun,
}

impl AtomKind {
    pub open spec fn is_slot_spec(self) -> bool {
        self is Var || self is Cap || self is Num || self is WsRun
    }

    pub fn is_slot(&self) -> (r: bool)
        ensures
            r == self.is_slot_spec(),
    {
        match self {
            AtomKind::Var | AtomKind::Cap | AtomKind::Num | AtomKind::WsRun => true,
            _ => false,
        }
    }
}

/// Small integer code of a kind, used as part of the atom table key.
pub open spec fn kind_code(k: AtomKind) -> u8 {
    match k {
        AtomKind::Lit => 0,
        AtomKind::Ws => 1,
        AtomKind::Punc => 2,
        AtomKind::Var => 3,
        AtomKind::Cap => 4,
        AtomKind::Num => 5,
        AtomKind::WsRun => 6,
    }
}

fn kind_code_exec(k: AtomKind) -> (r: u8)
    ensures
        r == kind_code(k),
{
    match k {
        AtomKind::Lit => 0,
        AtomKind::Ws => 1,
        AtomKind::Punc => 2,
        AtomKind::Var => 3,
        AtomKind::Cap => 4,
        AtomKind::Num => 5,
        AtomKind::WsRun => 6,
    }
}

/// One slot occurrence: the slot kind and the payload holding its actual text.
#[derive(Clone, Copy, Debug, PartialEq, Eq, Structural)]
pub struct SlotValue {
    pub kind: AtomKind,
    pub payload: PayloadId,
}

/// Hash index from payload text to payload id.
#[verifier::external_body]
pub struct PayloadIndex {
    map: hashbrown::HashMap<String, u32>,
}

/// What a payload index holds.
pub uninterp spec fn payload_index_contents(m: PayloadIndex) -> Map<Seq<char>, u32>;

impl PayloadIndex {
    /// Relies on hashbrown::HashMap::new: the new map is empty.
    #[verifier::external_body]
    fn new() -> (r: PayloadIndex)
        ensures
            payload_index_contents(r).dom().is_empty(),
    {
        PayloadIndex { map: hashbrown::HashMap::new() }
    }

    /// Relies on hashbrown::HashMap::get: the value under a key equal to `s`, if any.
    #[verifier::external_body]
    fn get(&self, s: &str) -> (r: Option<u32>)
        ensures
            r == (if payload_index_contents(*self).contains_key(s@) {
                Some(payload_index_contents(*self)[s@])
            } else {
                None
            }),
    {
        self.map.get(s).copied()
    }

    /// Relies on hashbrown::HashMap::insert: the key now maps to `id`, others are kept.
    #[verifier::external_body]
    fn insert(&mut self, s: &str, id: u32)
        ensures
            payload_index_contents(*final(self)) == payload_index_contents(*old(self)).insert(
                s@,
                id,
            ),
    {
        self.map.insert(s.to_owned(), id);
    }

    /// Relies on hashbrown::HashMap::clone: the copy holds the same entries.
    #[verifier::external_body]
    fn duplicate(&self) -> (r: PayloadIndex)
        ensures
            payload_index_contents(r) == payload_index_contents(*self),
    {
        PayloadIndex { map: self.map.clone() }
    }
}

/// Hash index from (kind code, payload id) to atom id.
#[verifier::external_body]
pub struct AtomIndex {
    map: hashbrown::HashMap<(u8, u32), u32>,
}

/// What an atom index holds.
pub uninterp spec fn atom_index_contents(m: AtomIndex) -> Map<(u8, u32), u32>;

impl AtomIndex {
    /// Relies on hashbrown::HashMap::new: the new map is empty.
    #[verifier::external_body]
    fn new() -> (r: AtomIndex)
        ensures
            atom_index_contents(r).dom().is_empty(),
    {
        AtomIndex { map: hashbrown::HashMap::new() }
    }

    /// Relies on hashbrown::HashMap::get: the value under the key, if any.
    #[verifier::external_body]
    fn get(&self, key: (u8, u32)) -> (r: Option<u32>)
        ensures
            r == (if atom_index_contents(*self).contains_key(key) {
                Some(atom_index_contents(*self)[key])
            } else {
                None
            }),
    {
        self.map.get(&key).copied()
    }

    /// Relies on hashbrown::HashMap::insert: the key now maps to `id`, others are kept.
    #[verifier::external_body]
    fn insert(&mut self, key: (u8, u32), id: u32)
        ensures
            atom_index_contents(*final(self)) == atom_index_contents(*old(self)).insert(key, id),
    {
        self.map.insert(key, id);
    }

    /// Relies on hashbrown::HashMap::clone: the copy holds the same entries.
    #[verifier::external_body]
    fn duplicate(&self) -> (r: AtomIndex)
        ensures
            atom_index_contents(r) == atom_index_contents(*self),
    {
        AtomIndex { map: self.map.clone() }
    }
}

fn copy_atoms(v: &Vec<(AtomKind, PayloadId)>) -> (r: Vec<(AtomKind, PayloadId)>)
    ensures
        r@ == v@,
{
    let mut r: Vec<(AtomKind, PayloadId)> = Vec::new();
    let mut i: usize = 0;
    while i < v.len()
        invariant
            i <= v@.len(),
            r@ == v@.take(i as int),
        decreases v@.len() - i,
    {
        r.push(v[i]);
        i = i + 1;
        assert(r@ =~= v@.take(i as int));
    }
    assert(r@ =~= v@);
    r
}

impl Default for Interner {
    fn default() -> (r: Interner)
        ensures
            r.wf(),
            r.payloads().len() == 0,
            r.atoms().len() == 0,
            !r.frozen_spec(),
    {
        Interner::new()
    }
}

/// Symbol tables. Ids are handed out in insertion order and never change.
pub struct Interner {
    payload_to_id: PayloadIndex,
    id_to_payload: Vec<String>,
    atom_to_id: AtomIndex,
    id_to_atom: Vec<(AtomKind, PayloadId)>,
    frozen: bool,
}

impl Interner {
    /// The payload texts, indexed by payload id.
    pub closed spec fn payloads(&self) -> Seq<Seq<char>> {
        self.id_to_payload@.map_values(|s: String| s@)
    }

    /// The atoms, indexed by atom id.
    pub closed spec fn atoms(&self) -> Seq<(AtomKind, PayloadId)> {
        self.id_to_atom@
    }

    pub closed spec fn frozen_spec(&self) -> bool {
        self.frozen
    }

    /// The hash indexes agree with the id tables.
    pub closed spec fn indexes_agree(&self) -> bool {
        let pm = payload_index_contents(self.payload_to_id);
        let am = atom_index_contents(self.atom_to_id);
        &&& forall|s: Seq<char>| #[trigger]
            pm.contains_key(s) ==> pm[s] < self.payloads().len() && self.payloads()[pm[s] as int]
                == s
        &&& forall|i: int|
            0 <= i < self.payloads().len() ==> #[trigger] pm.contains_key(self.payloads()[i])
                && pm[self.payloads()[i]] == i
        &&& forall|k: (u8, u32)| #[trigger]
            am.contains_key(k) ==> am[k] < self.atoms().len() && kind_code(
                self.atoms()[am[k] as int].0,
            ) == k.0 && self.atoms()[am[k] as int].1 == k.1
        &&& forall|i: int|
            0 <= i < self.atoms().len() ==> #[trigger] am.contains_key(
                (kind_code(self.atoms()[i].0), self.atoms()[i].1),
            ) && am[(kind_code(self.atoms()[i].0), self.atoms()[i].1)] == i
    }

    /// Well-formedness: indexes agree with the tables, ids are distinct and fit in `u32`,
    /// and every atom refers to a known payload.
    pub open spec fn wf(&self) -> bool {
        &&& self.indexes_agree()
        &&& self.payloads().len() <= u32::MAX
        &&& self.atoms().len() <= u32::MAX
        &&& forall|i: int, j: int|
            0 <= i < j < self.payloads().len() ==> self.payloads()[i] != self.payloads()[j]
        &&& forall|i: int, j: int|
            0 <= i < j < self.atoms().len() ==> self.atoms()[i] != self.atoms()[j]
        &&& forall|i: int| 0 <= i < self.atoms().len() ==> #[trigger] self.atoms()[i].1 < self.payloads().len()
    }

    pub fn new() -> (r: Interner)
        ensures
            r.wf(),
            r.payloads() == Seq::<Seq<char>>::empty(),
            r.atoms() == Seq::<(AtomKind, PayloadId)>::empty(),
            !r.frozen_spec(),
    {
        let r = Interner {
            payload_to_id: PayloadIndex::new(),
            id_to_payload: Vec::new(),
            atom_to_id: AtomIndex::new(),
            id_to_atom: Vec::new(),
            frozen: false,
        };
        assert(r.payloads() =~= Seq::<Seq<char>>::empty());
        r
    }

    /// A separate copy with the same tables and the same frozen flag.
    pub fn duplicate(&self) -> (r: Interner)
        requires
            self.wf(),
        ensures
            r.wf(),
            r.payloads() == self.payloads(),
            r.atoms() == self.atoms(),
            r.frozen_spec() == self.frozen_spec(),
    {
        let r = Interner {
            payload_to_id: self.payload_to_id.duplicate(),
            id_to_payload: self.id_to_payload.clone(),
            atom_to_id: self.atom_to_id.duplicate(),
            id_to_atom: copy_atoms(&self.id_to_atom),
            frozen: self.frozen,
        };
        assert(r.payloads() =~= self.payloads());
        r
    }

    pub fn freeze(&mut self)
        requires
            old(self).wf(),
        ensures
            final(self).wf(),
            final(self).frozen_spec(),
            final(self).payloads() == old(self).payloads(),
            final(self).atoms() == old(self).atoms(),
    {
        self.frozen = true;
        assert(self.indexes_agree());
    }

    /// Lifts the frozen state of this table, so that it may grow again.
    pub fn thaw(&mut self)
        requires
            old(self).wf(),
        ensures
            final(self).wf(),
            !final(self).frozen_spec(),
            final(self).payloads() == old(self).payloads(),
            final(self).atoms() == old(self).atoms(),
    {
        self.frozen = false;
    }

    pub fn is_frozen(&self) -> (r: bool)
        ensures
            r == self.frozen_spec(),
    {
        self.frozen
    }

    pub fn payload_count(&self) -> (r: usize)
        ensures
            r == self.payloads().len(),
    {
        self.id_to_payload.len()
    }

    pub fn atom_count(&self) -> (r: usize)
        ensures
            r == self.atoms().len(),
    {
        self.id_to_atom.len()
    }

    /// The id of a payload text, if it is known.
    pub fn payload_id(&self, s: &str) -> (r: Option<PayloadId>)
        requires
            self.wf(),
        ensures
            self.payloads().contains(s@) <==> r is Some,
            r matches Some(id) ==> id < self.payloads().len() && self.payloads()[id as int] == s@,
    {
        let r = self.payload_to_id.get(s);
        proof {
            if self.payloads().contains(s@) {
                let i = choose|i: int| 0 <= i < self.payloads().len() && self.payloads()[i] == s@;
                assert(payload_index_contents(self.payload_to_id).contains_key(self.payloads()[i]));
            }
            if r is Some {
                assert(self.payloads()[r->0 as int] == s@);
            }
        }
        r
    }

    /// The id of an atom, if it is known.
    pub fn atom_id(&self, kind: AtomKind, payload: PayloadId) -> (r: Option<AtomId>)
        requires
            self.wf(),
        ensures
            self.atoms().contains((kind, payload)) <==> r is Some,
            r matches Some(id) ==> id < self.atoms().len() && self.atoms()[id as int] == (
                kind,
                payload,
            ),
    {
        let code = kind_code_exec(kind);
        let r = self.atom_to_id.get((code, payload));
        proof {
            if self.atoms().contains((kind, payload)) {
                let i = choose|i: int|
                    0 <= i < self.atoms().len() && self.atoms()[i] == (kind, payload);
                assert(atom_index_contents(self.atom_to_id).contains_key(
                    (kind_code(self.atoms()[i].0), self.atoms()[i].1),
                ));
            }
            if r is Some {
                let a = self.atoms()[r->0 as int];
                assert(kind_code(a.0) == kind_code(kind));
                assert(a.0 == kind);
                assert(self.atoms().contains((kind, payload)));
            }
        }
        r
    }

    pub fn payload_str(&self, id: PayloadId) -> (r: &str)
        requires
            id < self.payloads().len(),
        ensures
            r@ == self.payloads()[id as int],
    {
        self.id_to_payload[id as usize].as_str()
    }

    pub fn atom_info(&self, id: AtomId) -> (r: (AtomKind, PayloadId))
        requires
            id < self.atoms().len(),
        ensures
            r == self.atoms()[id as int],
    {
        self.id_to_atom[id as usize]
    }

    /// Returns the id of `s`, minting the next id when `s` is new. Fails when `s` is new
    /// and the tables are frozen or hold `u32::MAX` payloads.
    pub fn intern_payload(&mut self, s: &str) -> (r: Option<PayloadId>)
        requires
            old(self).wf(),
        ensures
            final(self).wf(),
            final(self).atoms() == old(self).atoms(),
            final(self).frozen_spec() == old(self).frozen_spec(),
            old(self).payloads().contains(s@) ==> final(self).payloads() == old(self).payloads()
                && r is Some && r->0 < old(self).payloads().len() && old(self).payloads()[r->0 as int] == s@,
            !old(self).payloads().contains(s@) && (old(self).frozen_spec()
                || old(self).payloads().len() == u32::MAX) ==> r is None && final(self).payloads()
                == old(self).payloads(),
            !old(self).payloads().contains(s@) && !old(self).frozen_spec()
                && old(self).payloads().len() < u32::MAX ==> r == Some(old(self).payloads().len() as u32)
                && final(self).payloads() == old(self).payloads().push(s@),
    {
        let found = self.payload_id(s);
        if let Some(id) = found {
            return Some(id);
        }
        if self.frozen || self.id_to_payload.len() >= 4294967295usize {
            return None;
        }
        let id = self.id_to_payload.len() as u32;
        let ghost old_payloads = self.payloads();
        self.id_to_payload.push(s.to_owned());
        self.payload_to_id.insert(s, id);
        proof {
            assert(self.payloads() =~= old_payloads.push(s@));
            let pm = payload_index_contents(self.payload_to_id);
            assert forall|t: Seq<char>| #[trigger] pm.contains_key(t) implies pm[t] < self.payloads().len()
                && self.payloads()[pm[t] as int] == t by {
                if t != s@ {
                    assert(self.payloads()[pm[t] as int] == old_payloads[pm[t] as int]);
                }
            }
            assert forall|i: int| 0 <= i < self.payloads().len() implies #[trigger] pm.contains_key(
                self.payloads()[i]) && pm[self.payloads()[i]] == i by {
                if i < old_payloads.len() {
                    assert(self.payloads()[i] == old_payloads[i]);
                    assert(old_payloads[i] != s@);
                }
            }
            assert forall|i: int, j: int| 0 <= i < j < self.payloads().len() implies self.payloads()[i]
                != self.payloads()[j] by {
                if j == old_payloads.len() {
                    assert(self.payloads()[i] == old_payloads[i]);
                }
            }
        }
        Some(id)
    }

    /// Returns the id of the atom `(kind, payload)`, minting the next id when it is new.
    /// Fails when it is new and the tables are frozen or hold `u32::MAX` atoms.
    pub fn intern_atom(&mut self, kind: AtomKind, payload: PayloadId) -> (r: Option<AtomId>)
        requires
            old(self).wf(),
            payload < old(self).payloads().len(),
        ensures
            final(self).wf(),
            final(self).payloads() == old(self).payloads(),
            final(self).frozen_spec() == old(self).frozen_spec(),
            old(self).atoms().contains((kind, payload)) ==> final(self).atoms() == old(self).atoms()
                && r is Some && r->0 < old(self).atoms().len() && old(self).atoms()[r->0 as int] == (kind, payload),
            !old(self).atoms().contains((kind, payload)) && (old(self).frozen_spec()
                || old(self).atoms().len() == u32::MAX) ==> r is None && final(self).atoms()
                == old(self).atoms(),
            !old(self).atoms().contains((kind, payload)) && !old(self).frozen_spec()
                && old(self).atoms().len() < u32::MAX ==> r == Some(old(self).atoms().len() as u32)
                && final(self).atoms() == old(self).atoms().push((kind, payload)),
    {
        let found = self.atom_id(kind, payload);
        if let Some(id) = found {
            return Some(id);
        }
        if self.frozen || self.id_to_atom.len() >= 4294967295usize {
            return None;
        }
        let id = self.id_to_atom.len() as u32;
        let ghost old_atoms = self.atoms();
        let code = kind_code_exec(kind);
        self.id_to_atom.push((kind, payload));
        self.atom_to_id.insert((code, payload), id);
        proof {
            assert(self.atoms() =~= old_atoms.push((kind, payload)));
            let am = atom_index_contents(self.atom_to_id);
            assert forall|k: (u8, u32)| #[trigger] am.contains_key(k) implies am[k] < self.atoms().len()
                && kind_code(self.atoms()[am[k] as int].0) == k.0 && self.atoms()[am[k] as int].1 == k.1 by {
                if k != (code, payload) {
                    assert(self.atoms()[am[k] as int] == old_atoms[am[k] as int]);
                }
            }
            assert forall|i: int| 0 <= i < self.atoms().len() implies #[trigger] am.contains_key(
                (kind_code(self.atoms()[i].0), self.atoms()[i].1)) && am[(kind_code(self.atoms()[i].0),
                self.atoms()[i].1)] == i by {
                if i < old_atoms.len() {
                    assert(self.atoms()[i] == old_atoms[i]);
                    assert(old_atoms[i] != (kind, payload));
                    if kind_code(old_atoms[i].0) == code && old_atoms[i].1 == payload {
                        assert(old_atoms[i].0 == kind);
                    }
                }
            }
            assert forall|i: int, j: int| 0 <= i < j < self.atoms().len() implies self.atoms()[i]
                != self.atoms()[j] by {
                if j == old_atoms.len() {
                    assert(self.atoms()[i] == old_atoms[i]);
                }
            }
            assert forall|i: int| 0 <= i < self.atoms().len() implies #[trigger] self.atoms()[i].1
                < self.payloads().len() by {
                if i < old_atoms.len() {
                    assert(self.atoms()[i] == old_atoms[i]);
                }
            }
        }
        Some(id)
    }

    /// The atom of a kind with the empty payload, as slot atoms are interned; fails as
    /// `intern_payload` and `intern_atom` do.
    pub fn intern_fixed_kind(&mut self, kind: AtomKind) -> (r: Option<AtomId>)
        requires
            old(self).wf(),
        ensures
            final(self).wf(),
            final(self).frozen_spec() == old(self).frozen_spec(),
            old(self).payloads().len() <= final(self).payloads().len(),
            final(self).payloads().take(old(self).payloads().len() as int) == old(self).payloads(),
            old(self).atoms().len() <= final(self).atoms().len(),
            final(self).atoms().take(old(self).atoms().len() as int) == old(self).atoms(),
            r matches Some(id) ==> id < final(self).atoms().len() && final(self).atoms()[id as int].0 == kind
                && final(self).payloads()[final(self).atoms()[id as int].1 as int] == Seq::<char>::empty(),
            !old(self).frozen_spec() && old(self).payloads().len() < u32::MAX && old(self).atoms().len() < u32::MAX ==> r is Some,
    {
        let ghost p0 = self.payloads();
        let ghost a0 = self.atoms();
        let blank = String::new();
        let e = self.intern_payload(blank.as_str());
        let ghost p1 = self.payloads();
        proof {
            assert(self.payloads().take(p0.len() as int) =~= p0);
            assert(self.atoms().take(a0.len() as int) =~= a0);
        }
        let e = match e {
            Some(e) => e,
            None => {
                return None;
            },
        };
        let r = self.intern_atom(kind, e);
        proof {
            assert(self.payloads().take(p0.len() as int) =~= p0);
            assert(self.atoms().take(a0.len() as int) =~= a0);
            assert(p1[e as int] == Seq::<char>::empty());
        }
        r
    }
}

} // verus!
