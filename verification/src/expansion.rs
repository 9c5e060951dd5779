//! The expansion protocol's vocabulary: the closed relation set, the `{relation, anchor}`
//! query an omission points at, the depth it is asked to, and the canonical question.

use vstd::prelude::*;

use crate::json::{decimal, json_string, write_decimal, write_raw, write_string};
use crate::name::Name;
use crate::omission::OmissionRecord;
use crate::selection::{ItemHeader, SelectionKind};
use crate::text::str_eq;

verus! {

/// One member of the closed eleven-member expansion relation vocabulary.
#[derive(Debug, Clone, Copy, PartialEq, Eq, Hash, PartialOrd, Ord, Structural)]
pub enum ExpansionRelation {
    /// The anchor's causal past.
    CausalPredecessors,
    /// The anchor's causal future.
    CausalSuccessors,
    /// The events that conflict with the anchor.
    ConflictsWith,
    /// Items owned by the anchor's task or node.
    SameOwner,
    /// The automaton transition the anchor drove.
    PropertyAutomatonStep,
    /// The anchor's proof-dependency slice.
    ProofDependency,
    /// The source spans the anchor corresponds to.
    SourceSpan,
    /// The assumptions the anchor uses.
    AssumptionUses,
    /// The abstract counterpart of the anchor.
    AbstractionOf,
    /// The concrete counterpart of the anchor.
    RefinementOf,
    /// A counterfactual branch beside the anchor.
    AlternateBranch,
}

impl ExpansionRelation {
    /// Every member, in declaration order.
    pub const ALL: [ExpansionRelation; 11] = [
        ExpansionRelation::CausalPredecessors,
        ExpansionRelation::CausalSuccessors,
        ExpansionRelation::ConflictsWith,
        ExpansionRelation::SameOwner,
        ExpansionRelation::PropertyAutomatonStep,
        ExpansionRelation::ProofDependency,
        ExpansionRelation::SourceSpan,
        ExpansionRelation::AssumptionUses,
        ExpansionRelation::AbstractionOf,
        ExpansionRelation::RefinementOf,
        ExpansionRelation::AlternateBranch,
    ];

    /// The member's position in declaration order.
    pub open spec fn rank(self) -> int {
        match self {
            ExpansionRelation::CausalPredecessors => 0,
            ExpansionRelation::CausalSuccessors => 1,
            ExpansionRelation::ConflictsWith => 2,
            ExpansionRelation::SameOwner => 3,
            ExpansionRelation::PropertyAutomatonStep => 4,
            ExpansionRelation::ProofDependency => 5,
            ExpansionRelation::SourceSpan => 6,
            ExpansionRelation::AssumptionUses => 7,
            ExpansionRelation::AbstractionOf => 8,
            ExpansionRelation::RefinementOf => 9,
            ExpansionRelation::AlternateBranch => 10,
        }
    }

    /// `ALL` lists every member at its rank.
    pub proof fn lemma_all_lists(member: ExpansionRelation)
        ensures
            0 <= member.rank() < 11,
            ExpansionRelation::ALL@[member.rank()] == member,
    {
    }

    /// The member's stable token.
    pub open spec fn wire(self) -> Seq<char> {
        match self {
            ExpansionRelation::CausalPredecessors => "causal_predecessors"@,
            ExpansionRelation::CausalSuccessors => "causal_successors"@,
            ExpansionRelation::ConflictsWith => "conflicts_with"@,
            ExpansionRelation::SameOwner => "same_owner"@,
            ExpansionRelation::PropertyAutomatonStep => "property_automaton_step"@,
            ExpansionRelation::ProofDependency => "proof_dependency"@,
            ExpansionRelation::SourceSpan => "source_span"@,
            ExpansionRelation::AssumptionUses => "assumption_uses"@,
            ExpansionRelation::AbstractionOf => "abstraction_of"@,
            ExpansionRelation::RefinementOf => "refinement_of"@,
            ExpansionRelation::AlternateBranch => "alternate_branch"@,
        }
    }

    /// The wire token, byte-identical to the schema's.
    pub fn as_wire_str(self) -> (text: &'static str)
        ensures
            text@ == self.wire(),
    {
        match self {
            ExpansionRelation::CausalPredecessors => "causal_predecessors",
            ExpansionRelation::CausalSuccessors => "causal_successors",
            ExpansionRelation::ConflictsWith => "conflicts_with",
            ExpansionRelation::SameOwner => "same_owner",
            ExpansionRelation::PropertyAutomatonStep => "property_automaton_step",
            ExpansionRelation::ProofDependency => "proof_dependency",
            ExpansionRelation::SourceSpan => "source_span",
            ExpansionRelation::AssumptionUses => "assumption_uses",
            ExpansionRelation::AbstractionOf => "abstraction_of",
            ExpansionRelation::RefinementOf => "refinement_of",
            ExpansionRelation::AlternateBranch => "alternate_branch",
        }
    }

    /// The token's length and the characters that tell members' tokens apart.
    pub open spec fn signature(self) -> (int, char) {
        match self {
            ExpansionRelation::CausalPredecessors => (19, 'c'),
            ExpansionRelation::CausalSuccessors => (17, 'c'),
            ExpansionRelation::ConflictsWith => (14, 'c'),
            ExpansionRelation::SameOwner => (10, 's'),
            ExpansionRelation::PropertyAutomatonStep => (23, 'p'),
            ExpansionRelation::ProofDependency => (16, 'p'),
            ExpansionRelation::SourceSpan => (11, 's'),
            ExpansionRelation::AssumptionUses => (15, 'a'),
            ExpansionRelation::AbstractionOf => (14, 'a'),
            ExpansionRelation::RefinementOf => (13, 'r'),
            ExpansionRelation::AlternateBranch => (16, 'a'),
        }
    }

    proof fn lemma_signature(member: ExpansionRelation)
        ensures
            member.wire().len() == member.signature().0,
            member.wire()[0] == member.signature().1,
    {
        match member {
            ExpansionRelation::CausalPredecessors => reveal_strlit("causal_predecessors"),
            ExpansionRelation::CausalSuccessors => reveal_strlit("causal_successors"),
            ExpansionRelation::ConflictsWith => reveal_strlit("conflicts_with"),
            ExpansionRelation::SameOwner => reveal_strlit("same_owner"),
            ExpansionRelation::PropertyAutomatonStep => reveal_strlit("property_automaton_step"),
            ExpansionRelation::ProofDependency => reveal_strlit("proof_dependency"),
            ExpansionRelation::SourceSpan => reveal_strlit("source_span"),
            ExpansionRelation::AssumptionUses => reveal_strlit("assumption_uses"),
            ExpansionRelation::AbstractionOf => reveal_strlit("abstraction_of"),
            ExpansionRelation::RefinementOf => reveal_strlit("refinement_of"),
            ExpansionRelation::AlternateBranch => reveal_strlit("alternate_branch"),
        }
    }

    /// Distinct members have distinct tokens.
    pub proof fn lemma_wire_injective(a: ExpansionRelation, b: ExpansionRelation)
        ensures
            a.wire() == b.wire() ==> a == b,
    {
        ExpansionRelation::lemma_signature(a);
        ExpansionRelation::lemma_signature(b);
    }

    /// Recover a member from its token, failing closed on anything else.
    pub fn from_wire_str(text: &str) -> (parsed: Option<ExpansionRelation>)
        ensures
            forall|member: ExpansionRelation| (parsed == Some(member)) == (text@ == member.wire()),
    {
        let all = ExpansionRelation::ALL;
        let mut i: usize = 0;
        while i < 11
            invariant
                all@ == ExpansionRelation::ALL@,
                i <= 11,
                forall|j: int| 0 <= j < i ==> text@ != all@[j].wire(),
            decreases 11 - i,
        {
            if str_eq(text, all[i].as_wire_str()) {
                proof {
                    assert forall|member: ExpansionRelation| (Some(all[i as int]) == Some(member)) == (text@ == member.wire()) by {
                        ExpansionRelation::lemma_wire_injective(all[i as int], member);
                    }
                }
                return Some(all[i]);
            }
            i = i + 1;
        }
        proof {
            assert forall|member: ExpansionRelation| text@ != member.wire() by {
                ExpansionRelation::lemma_all_lists(member);
            }
        }
        None
    }

}

/// One expansion query: `{relation, anchor}`.
#[derive(Debug, PartialEq, Eq)]
pub struct ExpansionQuery {
    relation: ExpansionRelation,
    anchor: Name,
}

impl Clone for ExpansionQuery {
    fn clone(&self) -> (copy: ExpansionQuery)
        ensures
            copy.relation_spec() == self.relation_spec(),
            copy.anchor_spec() == self.anchor_spec(),
    {
        ExpansionQuery { relation: self.relation, anchor: self.anchor.clone() }
    }
}

impl ExpansionQuery {
    /// Build a query.
    pub fn new(relation: ExpansionRelation, anchor: Name) -> (query: ExpansionQuery)
        ensures
            query.relation_spec() == relation,
            query.anchor_spec() == anchor@,
    {
        ExpansionQuery { relation, anchor }
    }

    /// Which of the eleven relations to follow.
    pub closed spec fn relation_spec(&self) -> ExpansionRelation {
        self.relation
    }

    /// The identifier of the item the expansion is rooted at.
    pub closed spec fn anchor_spec(&self) -> Seq<char> {
        self.anchor@
    }

    /// Which of the eleven relations to follow.
    pub fn relation(&self) -> (relation: ExpansionRelation)
        ensures
            relation == self.relation_spec(),
    {
        self.relation
    }

    /// The item the expansion is rooted at.
    pub fn anchor(&self) -> (anchor: &Name)
        ensures
            anchor@ == self.anchor_spec(),
    {
        &self.anchor
    }

    /// Whether two queries ask the same thing.
    pub fn same(&self, other: &ExpansionQuery) -> (same: bool)
        ensures
            same == (self.relation_spec() == other.relation_spec()
                && self.anchor_spec() == other.anchor_spec()),
    {
        self.relation == other.relation && self.anchor.same(&other.anchor)
    }

    /// The canonical JSON rendering: `{"anchor", "relation"}` in key order.
    pub fn to_json(&self) -> (text: String)
        ensures
            text@ == query_json(self.anchor_spec(), self.relation_spec()),
    {
        let mut out = String::new();
        write_raw(&mut out, "{\"anchor\":");
        write_string(&mut out, self.anchor.as_str());
        write_raw(&mut out, ",\"relation\":");
        write_string(&mut out, self.relation.as_wire_str());
        write_raw(&mut out, "}");
        out
    }
}

/// The canonical JSON text of an expansion query.
pub open spec fn query_json(anchor: Seq<char>, relation: ExpansionRelation) -> Seq<char> {
    "{\"anchor\":"@ + json_string(anchor) + ",\"relation\":"@ + json_string(relation.wire()) + "}"@
}

/// How far an expansion is asked to reach: a positive number of hops.
#[derive(Debug, Clone, Copy, PartialEq, Eq, Hash, PartialOrd, Ord, Structural)]
pub struct Depth {
    hops: u32,
}

impl Depth {
    #[verifier::type_invariant]
    spec fn reaches_something(self) -> bool {
        self.hops > 0
    }

    /// The number of hops.
    pub closed spec fn hops(self) -> nat {
        self.hops as nat
    }

    /// Build a depth, refusing zero.
    pub fn new(value: u32) -> (depth: Result<Depth, ExpansionError>)
        ensures
            depth is Ok <==> value != 0,
            value == 0 <==> depth == Err::<Depth, ExpansionError>(ExpansionError::ZeroDepth),
            depth matches Ok(d) ==> d.hops() == value,
    {
        if value == 0 {
            Err(ExpansionError::ZeroDepth)
        } else {
            Ok(Depth { hops: value })
        }
    }

    /// The depth an optional wire argument names: one hop when absent.
    pub fn from_optional(value: Option<u32>) -> (depth: Result<Depth, ExpansionError>)
        ensures
            depth is Ok <==> value != Some(0u32),
            value == Some(0u32) <==> depth == Err::<Depth, ExpansionError>(ExpansionError::ZeroDepth),
            depth matches Ok(d) ==> d.hops() == match value {
                Some(v) => v as nat,
                None => 1,
            },
    {
        match value {
            Some(value) => Depth::new(value),
            None => Ok(Depth::default()),
        }
    }

    /// The number of hops.
    pub fn get(self) -> (hops: u32)
        ensures
            hops == self.hops(),
            hops > 0,
    {
        proof { use_type_invariant(self); }
        self.hops
    }
}

impl Default for Depth {
    /// The depth an absent `depth` argument means: one hop.
    fn default() -> (depth: Depth)
        ensures
            depth.hops() == 1,
    {
        Depth { hops: 1 }
    }
}

/// The canonical text of the `(relation, anchor, depth)` triple.
pub open spec fn question_json(anchor: Seq<char>, depth: nat, relation: ExpansionRelation) -> Seq<char> {
    "{\"anchor\":"@ + json_string(anchor) + ",\"depth\":"@ + decimal(depth) + ",\"relation\":"@
        + json_string(relation.wire()) + "}"@
}

/// The canonical rendering of an expansion's question: the pack's `question` field.
#[derive(Debug, Clone)]
pub struct ExpansionQuestion {
    text: String,
}

impl View for ExpansionQuestion {
    type V = Seq<char>;

    closed spec fn view(&self) -> Seq<char> {
        self.text@
    }
}

impl ExpansionQuestion {
    /// The question a `(query, depth)` pair asks.
    pub fn of(query: &ExpansionQuery, depth: Depth) -> (question: ExpansionQuestion)
        ensures
            question@ == question_json(query.anchor_spec(), depth.hops(), query.relation_spec()),
    {
        let mut out = String::new();
        write_raw(&mut out, "{\"anchor\":");
        write_string(&mut out, query.anchor().as_str());
        write_raw(&mut out, ",\"depth\":");
        write_decimal(&mut out, depth.get() as u64);
        write_raw(&mut out, ",\"relation\":");
        write_string(&mut out, query.relation().as_wire_str());
        write_raw(&mut out, "}");
        ExpansionQuestion { text: out }
    }

    /// The canonical text, as the pack's `question` field carries it.
    pub fn as_str(&self) -> (text: &str)
        ensures
            text@ == self@,
    {
        self.text.as_str()
    }
}

/// A value the expansion protocol refuses to build.
#[derive(Debug, Clone, Copy, PartialEq, Eq, Structural)]
pub enum ExpansionError {
    /// A depth of zero, which reaches nothing and means nothing.
    ZeroDepth,
    /// A record's exact count is not the number of items it was paired with.
    CountDisagrees {
        /// What the record claims.
        counted: u32,
        /// What it was given.
        held: usize,
    },
    /// An item is not of the kind its record accounts for.
    KindDisagrees {
        /// The record's kind.
        record: crate::selection::SelectionKind,
        /// The offending item's kind.
        item: crate::selection::SelectionKind,
    },
    /// An irretrievable record was paired with items.
    IrretrievableCarriesItems {
        /// How many.
        items: usize,
    },
}


/// Whether the item at `i` is the first whose kind is not `kind`.
pub open spec fn first_stray(items: Seq<ItemHeader>, kind: SelectionKind, i: int) -> bool {
    &&& 0 <= i < items.len()
    &&& items[i].kind != kind
    &&& forall|j: int| 0 <= j < i ==> (#[trigger] items[j]).kind == kind
}

/// Whether every item is of `kind`.
pub open spec fn all_of_kind(items: Seq<ItemHeader>, kind: SelectionKind) -> bool {
    forall|j: int| 0 <= j < items.len() ==> (#[trigger] items[j]).kind == kind
}

/// An omission record paired with the items it accounts for.
#[derive(Debug, PartialEq, Eq)]
pub struct ExpansionPayload {
    record: OmissionRecord,
    items: Vec<ItemHeader>,
}

impl ExpansionPayload {
    /// The record.
    pub closed spec fn record_spec(&self) -> OmissionRecord {
        self.record
    }

    /// The items.
    pub closed spec fn held(&self) -> Seq<ItemHeader> {
        self.items@
    }

    /// Pair a record with the items it accounts for.
    ///
    /// Refuses an item of another kind than the record's (the first such item), an expandable
    /// record whose exact count is not the number of items, and an irretrievable record paired
    /// with any item at all.
    pub fn new(record: OmissionRecord, items: Vec<ItemHeader>) -> (payload: Result<ExpansionPayload, ExpansionError>)
        ensures
            payload is Ok <==> all_of_kind(items@, record.cell().0) && if record.cell().2 is Some {
                items@.len() == record.tally()
            } else {
                items@.len() == 0
            },
            !all_of_kind(items@, record.cell().0) ==> (payload matches Err(ExpansionError::KindDisagrees { record: r, item: k })
                && r == record.cell().0 && exists|i: int| first_stray(items@, record.cell().0, i) && items@[i].kind == k),
            all_of_kind(items@, record.cell().0) && record.cell().2 is Some && items@.len() != record.tally() ==> payload
                == Err::<ExpansionPayload, ExpansionError>(
                ExpansionError::CountDisagrees { counted: record.tally() as u32, held: items@.len() as usize },
            ),
            all_of_kind(items@, record.cell().0) && record.cell().2 is None && items@.len() > 0 ==> payload == Err::<
                ExpansionPayload,
                ExpansionError,
            >(ExpansionError::IrretrievableCarriesItems { items: items@.len() as usize }),
            payload matches Ok(p) ==> p.record_spec() == record && p.held() == items@,
    {
        let kind = record.kind();
        let n = items.len();
        let mut i: usize = 0;
        while i < n
            invariant
                n == items@.len(),
                kind == record.cell().0,
                i <= n,
                forall|j: int| 0 <= j < i ==> (#[trigger] items@[j]).kind == kind,
            decreases n - i,
        {
            if items[i].kind != kind {
                proof { assert(first_stray(items@, kind, i as int)); }
                return Err(ExpansionError::KindDisagrees { record: kind, item: items[i].kind });
            }
            i = i + 1;
        }
        proof { OmissionRecord::lemma_tally_fits(&record); }
        if record.retrievability().is_expandable() {
            if record.count() as usize != n {
                return Err(ExpansionError::CountDisagrees { counted: record.count(), held: n });
            }
        } else if n > 0 {
            return Err(ExpansionError::IrretrievableCarriesItems { items: n });
        }
        Ok(ExpansionPayload { record, items })
    }

    /// Pair an irretrievable record with nothing: what is gone has no items to carry.
    pub fn irretrievable(record: OmissionRecord) -> (payload: Result<ExpansionPayload, ExpansionError>)
        ensures
            payload is Ok <==> (record.cell().2 is None || record.tally() == 0),
            record.cell().2 is Some && record.tally() != 0 ==> payload == Err::<ExpansionPayload, ExpansionError>(
                ExpansionError::CountDisagrees { counted: record.tally() as u32, held: 0 },
            ),
            payload matches Ok(p) ==> p.record_spec() == record && p.held().len() == 0,
    {
        ExpansionPayload::new(record, Vec::new())
    }

    /// The record.
    pub fn record(&self) -> (record: &OmissionRecord)
        ensures
            *record == self.record_spec(),
    {
        &self.record
    }

    /// The items.
    pub fn items(&self) -> (items: &[ItemHeader])
        ensures
            items@ == self.held(),
    {
        self.items.as_slice()
    }

    /// The query that retrieves the record's items, when one does.
    pub fn query(&self) -> (query: Option<&ExpansionQuery>)
        ensures
            query is Some <==> self.record_spec().cell().2 is Some,
            query matches Some(q) ==> self.record_spec().cell().2 == Some((q.relation_spec(), q.anchor_spec())),
    {
        self.record.retrievability().query()
    }
}

impl ExpansionError {
    /// The refusal's explanation.
    pub open spec fn explanation(&self) -> Seq<char> {
        match self {
            ExpansionError::ZeroDepth => "an expansion depth of zero reaches nothing"@,
            ExpansionError::CountDisagrees { counted, held } =>
                "the omission record counts "@ + decimal(*counted as nat) + " items and was paired with "@
                    + decimal(*held as nat) + "; a manifest count is exact"@,
            ExpansionError::KindDisagrees { record, item } =>
                "the omission record accounts for `"@ + record.wire() + "` items and was paired with a `"@ + item.wire() + "` item"@,
            ExpansionError::IrretrievableCarriesItems { items } =>
                "an irretrievable omission was paired with "@ + decimal(*items as nat)
                    + " items; content that is gone cannot also be present"@,
        }
    }

    /// The refusal's explanation.
    pub fn message(&self) -> (text: String)
        ensures
            text@ == self.explanation(),
    {
        let mut out = String::new();
        match self {
            ExpansionError::ZeroDepth => write_raw(&mut out, "an expansion depth of zero reaches nothing"),
            ExpansionError::CountDisagrees { counted, held } => {
                write_raw(&mut out, "the omission record counts ");
                write_decimal(&mut out, *counted as u64);
                write_raw(&mut out, " items and was paired with ");
                write_decimal(&mut out, *held as u64);
                write_raw(&mut out, "; a manifest count is exact");
            },
            ExpansionError::KindDisagrees { record, item } => {
                write_raw(&mut out, "the omission record accounts for `");
                write_raw(&mut out, record.as_wire_str());
                write_raw(&mut out, "` items and was paired with a `");
                write_raw(&mut out, item.as_wire_str());
                write_raw(&mut out, "` item");
            },
            ExpansionError::IrretrievableCarriesItems { items } => {
                write_raw(&mut out, "an irretrievable omission was paired with ");
                write_decimal(&mut out, *items as u64);
                write_raw(&mut out, " items; content that is gone cannot also be present");
            },
        }
        proof { assert(out@ =~= self.explanation()); }
        out
    }
}

} // verus!
