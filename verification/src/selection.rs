//! The closed `selected[].kind` vocabulary every field group's items are drawn from, and what
//! the library reads of a selected item.

use vstd::prelude::*;

use crate::name::Name;
use crate::text::str_eq;

verus! {

/// One member of the closed eleven-member `selected[].kind` vocabulary.
#[derive(Debug, Clone, Copy, PartialEq, Eq, Hash, PartialOrd, Ord, Structural)]
pub enum SelectionKind {
    /// A causal-core event.
    Event,
    /// A per-variable value transition.
    StateDelta,
    /// A reference to a source span.
    Source,
    /// A reference to a named model action.
    Model,
    /// A proof item.
    Proof,
    /// An assumption.
    Assumption,
    /// A counterfactual item.
    Counterfactual,
    /// An obligation-flow item.
    ObligationFlow,
    /// An order constraint.
    OrderConstraint,
    /// A repair surface.
    RepairSurface,
    /// An item of unknown kind.
    Unknown,
}

impl SelectionKind {
    /// Every member, in declaration order.
    pub const ALL: [SelectionKind; 11] = [
        SelectionKind::Event,
        SelectionKind::StateDelta,
        SelectionKind::Source,
        SelectionKind::Model,
        SelectionKind::Proof,
        SelectionKind::Assumption,
        SelectionKind::Counterfactual,
        SelectionKind::ObligationFlow,
        SelectionKind::OrderConstraint,
        SelectionKind::RepairSurface,
        SelectionKind::Unknown,
    ];

    /// The member's position in declaration order.
    pub open spec fn rank(self) -> int {
        match self {
            SelectionKind::Event => 0,
            SelectionKind::StateDelta => 1,
            SelectionKind::Source => 2,
            SelectionKind::Model => 3,
            SelectionKind::Proof => 4,
            SelectionKind::Assumption => 5,
            SelectionKind::Counterfactual => 6,
            SelectionKind::ObligationFlow => 7,
            SelectionKind::OrderConstraint => 8,
            SelectionKind::RepairSurface => 9,
            SelectionKind::Unknown => 10,
        }
    }

    /// `ALL` lists every member at its rank.
    pub proof fn lemma_all_lists(member: SelectionKind)
        ensures
            0 <= member.rank() < 11,
            SelectionKind::ALL@[member.rank()] == member,
    {
    }

    /// The member's stable token.
    pub open spec fn wire(self) -> Seq<char> {
        match self {
            SelectionKind::Event => "event"@,
            SelectionKind::StateDelta => "state_delta"@,
            SelectionKind::Source => "source"@,
            SelectionKind::Model => "model"@,
            SelectionKind::Proof => "proof"@,
            SelectionKind::Assumption => "assumption"@,
            SelectionKind::Counterfactual => "counterfactual"@,
            SelectionKind::ObligationFlow => "obligation_flow"@,
            SelectionKind::OrderConstraint => "order_constraint"@,
            SelectionKind::RepairSurface => "repair_surface"@,
            SelectionKind::Unknown => "unknown"@,
        }
    }

    /// The schema's wire token.
    pub fn as_wire_str(self) -> (text: &'static str)
        ensures
            text@ == self.wire(),
    {
        match self {
            SelectionKind::Event => "event",
            SelectionKind::StateDelta => "state_delta",
            SelectionKind::Source => "source",
            SelectionKind::Model => "model",
            SelectionKind::Proof => "proof",
            SelectionKind::Assumption => "assumption",
            SelectionKind::Counterfactual => "counterfactual",
            SelectionKind::ObligationFlow => "obligation_flow",
            SelectionKind::OrderConstraint => "order_constraint",
            SelectionKind::RepairSurface => "repair_surface",
            SelectionKind::Unknown => "unknown",
        }
    }

    /// The token's length and the characters that tell members' tokens apart.
    pub open spec fn signature(self) -> (int, char) {
        match self {
            SelectionKind::Event => (5, 'e'),
            SelectionKind::StateDelta => (11, 's'),
            SelectionKind::Source => (6, 's'),
            SelectionKind::Model => (5, 'm'),
            SelectionKind::Proof => (5, 'p'),
            SelectionKind::Assumption => (10, 'a'),
            SelectionKind::Counterfactual => (14, 'c'),
            SelectionKind::ObligationFlow => (15, 'o'),
            SelectionKind::OrderConstraint => (16, 'o'),
            SelectionKind::RepairSurface => (14, 'r'),
            SelectionKind::Unknown => (7, 'u'),
        }
    }

    proof fn lemma_signature(member: SelectionKind)
        ensures
            member.wire().len() == member.signature().0,
            member.wire()[0] == member.signature().1,
    {
        match member {
            SelectionKind::Event => reveal_strlit("event"),
            SelectionKind::StateDelta => reveal_strlit("state_delta"),
            SelectionKind::Source => reveal_strlit("source"),
            SelectionKind::Model => reveal_strlit("model"),
            SelectionKind::Proof => reveal_strlit("proof"),
            SelectionKind::Assumption => reveal_strlit("assumption"),
            SelectionKind::Counterfactual => reveal_strlit("counterfactual"),
            SelectionKind::ObligationFlow => reveal_strlit("obligation_flow"),
            SelectionKind::OrderConstraint => reveal_strlit("order_constraint"),
            SelectionKind::RepairSurface => reveal_strlit("repair_surface"),
            SelectionKind::Unknown => reveal_strlit("unknown"),
        }
    }

    /// Distinct members have distinct tokens.
    pub proof fn lemma_wire_injective(a: SelectionKind, b: SelectionKind)
        ensures
            a.wire() == b.wire() ==> a == b,
    {
        SelectionKind::lemma_signature(a);
        SelectionKind::lemma_signature(b);
    }

    /// Recover a member from its token, failing closed on anything else.
    pub fn from_wire_str(text: &str) -> (parsed: Option<SelectionKind>)
        ensures
            forall|member: SelectionKind| (parsed == Some(member)) == (text@ == member.wire()),
    {
        let all = SelectionKind::ALL;
        let mut i: usize = 0;
        while i < 11
            invariant
                all@ == SelectionKind::ALL@,
                i <= 11,
                forall|j: int| 0 <= j < i ==> text@ != all@[j].wire(),
            decreases 11 - i,
        {
            if str_eq(text, all[i].as_wire_str()) {
                proof {
                    assert forall|member: SelectionKind| (Some(all[i as int]) == Some(member)) == (text@ == member.wire()) by {
                        SelectionKind::lemma_wire_injective(all[i as int], member);
                    }
                }
                return Some(all[i]);
            }
            i = i + 1;
        }
        proof {
            assert forall|member: SelectionKind| text@ != member.wire() by {
                SelectionKind::lemma_all_lists(member);
            }
        }
        None
    }

}

impl SelectionKind {
    /// The member's position in the closed vocabulary, as an index.
    pub fn slot(self) -> (index: usize)
        ensures
            index == self.rank(),
    {
        match self {
            SelectionKind::Event => 0,
            SelectionKind::StateDelta => 1,
            SelectionKind::Source => 2,
            SelectionKind::Model => 3,
            SelectionKind::Proof => 4,
            SelectionKind::Assumption => 5,
            SelectionKind::Counterfactual => 6,
            SelectionKind::ObligationFlow => 7,
            SelectionKind::OrderConstraint => 8,
            SelectionKind::RepairSurface => 9,
            SelectionKind::Unknown => 10,
        }
    }
}

/// What the library reads of one selected item: its identity and its kind.
#[derive(Debug, PartialEq, Eq)]
pub struct ItemHeader {
    /// The item's identity.
    pub id: Name,
    /// The item's kind.
    pub kind: SelectionKind,
}

} // verus!
