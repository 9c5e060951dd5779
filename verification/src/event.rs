//! The `selected[].kind = "event"` vocabulary: the role an event plays in the causal core.

use vstd::prelude::*;

verus! {

/// The role an event plays in the causal core.
#[derive(Debug, Clone, Copy, PartialEq, Eq, Hash, PartialOrd, Ord, Structural)]
pub enum EventRole {
    /// An event directly observed by the property.
    Observed,
    /// A causal predecessor of an observed event.
    CausalPredecessor,
}

impl EventRole {
    /// The role, as the summary phrase it renders as.
    pub open spec fn phrase(self) -> Seq<char> {
        match self {
            EventRole::Observed => "observed by the property"@,
            EventRole::CausalPredecessor => "a causal predecessor"@,
        }
    }

    /// The role, as the summary phrase it renders as.
    pub fn describe(self) -> (text: &'static str)
        ensures
            text@ == self.phrase(),
    {
        match self {
            EventRole::Observed => "observed by the property",
            EventRole::CausalPredecessor => "a causal predecessor",
        }
    }
}

} // verus!
