//! Stage seven's premise: the subjects a question asks to map through a correspondence.

use vstd::prelude::*;

use crate::name::{spelled, Name, NameSet};

verus! {

/// The subjects a question asks to map, held as a set in canonical order.
#[derive(Debug, PartialEq, Eq)]
pub struct CorrespondenceMapping {
    subjects: NameSet,
}

impl CorrespondenceMapping {
    /// The subjects, as a set of identifiers.
    pub closed spec fn named(&self) -> Set<Seq<char>> {
        self.subjects.contents()
    }

    /// The mapping of the subjects `subjects` names, however often each is named.
    pub fn of(subjects: Vec<Name>) -> (mapping: CorrespondenceMapping)
        ensures
            mapping.named() == spelled(subjects@).to_set(),
    {
        CorrespondenceMapping { subjects: NameSet::of(subjects) }
    }

    /// The mapping of a question that names no subject.
    pub fn nothing_named() -> (mapping: CorrespondenceMapping)
        ensures
            mapping.named() == Set::<Seq<char>>::empty(),
    {
        CorrespondenceMapping { subjects: NameSet::new() }
    }

    /// The subjects, in canonical order.
    pub fn subjects(&self) -> (subjects: &NameSet)
        ensures
            subjects.contents() == self.named(),
    {
        &self.subjects
    }

    /// How many distinct subjects are named.
    pub fn len(&self) -> (count: usize)
        ensures
            count == self.named().len(),
    {
        self.subjects.members().len()
    }

    /// Whether no subject is named.
    pub fn is_empty(&self) -> (empty: bool)
        ensures
            empty == (self.named() == Set::<Seq<char>>::empty()),
    {
        self.subjects.is_empty()
    }

    /// The subjects no correspondence maps: every one of them, since nothing here maps any.
    pub fn unmapped(&self) -> (unmapped: NameSet)
        ensures
            unmapped.contents() == self.named(),
    {
        self.subjects.clone()
    }
}

} // verus!
