//! Templates: fixed atom sequences with their slot kinds.

use vstd::prelude::*;
use crate::interner::{AtomId, AtomKind};

verus! {

/// A fixed sequence of atoms, with the kinds of the slot atoms in it.
#[derive(Clone, Debug)]
pub struct Template {
    pub atoms: Vec<AtomId>,
    pub slot_count: u8,
    pub slot_kinds: Vec<AtomKind>,
}

impl Template {
    pub fn new(atoms: Vec<AtomId>, slot_kinds: Vec<AtomKind>) -> (r: Template)
        requires
            slot_kinds@.len() <= u8::MAX,
        ensures
            r.atoms@ == atoms@,
            r.slot_kinds@ == slot_kinds@,
            r.slot_count == slot_kinds@.len(),
    {
        let slot_count = slot_kinds.len() as u8;
        Template { atoms, slot_count, slot_kinds }
    }

    pub fn len(&self) -> (r: usize)
        ensures
            r == self.atoms@.len(),
    {
        self.atoms.len()
    }

    pub fn is_empty(&self) -> (r: bool)
        ensures
            r == (self.atoms@.len() == 0),
    {
        self.atoms.len() == 0
    }
}

} // verus!
