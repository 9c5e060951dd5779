//! Stage five's premise: the proof obligations a question names for proof-dependency slicing.

use vstd::prelude::*;

use crate::name::{spelled, Name, NameSet};
use crate::selection::SelectionKind;

verus! {

/// The obligations a question names for proof-dependency slicing, held as a set in canonical
/// order.
#[derive(Debug, PartialEq, Eq)]
pub struct ProofSlicing {
    obligations: NameSet,
}

impl ProofSlicing {
    /// The obligations named, as a set of identifiers.
    pub closed spec fn named(&self) -> Set<Seq<char>> {
        self.obligations.contents()
    }

    /// The slicing over the obligations `obligations` names, however often each is named.
    pub fn over(obligations: Vec<Name>) -> (slicing: ProofSlicing)
        ensures
            slicing.named() == spelled(obligations@).to_set(),
    {
        ProofSlicing { obligations: NameSet::of(obligations) }
    }

    /// The slicing of a question that names no obligation.
    pub fn nothing_named() -> (slicing: ProofSlicing)
        ensures
            slicing.named() == Set::<Seq<char>>::empty(),
    {
        ProofSlicing { obligations: NameSet::new() }
    }

    /// The obligations, in canonical order.
    pub fn obligations(&self) -> (obligations: &NameSet)
        ensures
            obligations.contents() == self.named(),
    {
        &self.obligations
    }

    /// How many distinct obligations are named.
    pub fn len(&self) -> (count: usize)
        ensures
            count == self.named().len(),
    {
        self.obligations.members().len()
    }

    /// Whether no obligation is named.
    pub fn is_empty(&self) -> (empty: bool)
        ensures
            empty == (self.named() == Set::<Seq<char>>::empty()),
    {
        self.obligations.is_empty()
    }

    /// Whether stage five decides candidates of `kind`: the `proof` kind, and nothing else.
    pub fn decides(kind: SelectionKind) -> (decided: bool)
        ensures
            decided == (kind == SelectionKind::Proof),
    {
        match kind {
            SelectionKind::Proof => true,
            _ => false,
        }
    }
}

} // verus!
