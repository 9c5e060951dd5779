//! Stage 8: minimality classes, their removal families, and the search that transcribes
//! what each removal did to the witness.

use vstd::prelude::*;

use crate::causal::{canonical_order, downward_closed, CausalOrder, Graph};
use crate::guarantee::Guarantee;
use crate::json::{
    decimal, joined, json_array, json_string, lemma_joined_push, write_decimal, write_raw,
    write_separator, write_string,
};
use crate::name::{
    lemma_ascending_no_duplicates, lemma_ascending_unique, lemma_insert_ascending,
    lemma_listing_order, lemma_push_to_set, listing_precedes, locate, spelled,
    strictly_ascending, Name, NameFamily, NameSet,
};
use crate::property::{AutomatonVerdict, PropertyAutomaton};

verus! {

/// The seven members of [`Guarantee`] grouped as minimality classes, in schema order.
pub const MINIMALITY_GUARANTEES: [Guarantee; 7] = [
    Guarantee::OneMinimal,
    Guarantee::CardinalityMinimal,
    Guarantee::CausallyMinimal,
    Guarantee::ValueMinimal,
    Guarantee::OwnerMinimal,
    Guarantee::FaultMinimal,
    Guarantee::ExplanationMinimal,
];

/// One minimality class a transcript can license, in schema order.
#[derive(Debug, Clone, Copy, PartialEq, Eq, Hash, PartialOrd, Ord, Structural)]
pub enum MinimalityClass {
    /// Removing any one selected item destroys the witness.
    OneMinimal,
    /// No smaller selected set witnesses the failure, within the declared bound.
    CardinalityMinimal,
    /// Minimal configuration under causal closure.
    CausallyMinimal,
    /// Domains and names reduced.
    ValueMinimal,
    /// Tasks and nodes reduced.
    OwnerMinimal,
    /// No unnecessary injected fault.
    FaultMinimal,
}

impl MinimalityClass {
    /// Every member, in declaration order.
    pub const ALL: [MinimalityClass; 6] = [
        MinimalityClass::OneMinimal,
        MinimalityClass::CardinalityMinimal,
        MinimalityClass::CausallyMinimal,
        MinimalityClass::ValueMinimal,
        MinimalityClass::OwnerMinimal,
        MinimalityClass::FaultMinimal,
    ];

    /// The member's position in declaration order.
    pub open spec fn rank(self) -> int {
        match self {
            MinimalityClass::OneMinimal => 0,
            MinimalityClass::CardinalityMinimal => 1,
            MinimalityClass::CausallyMinimal => 2,
            MinimalityClass::ValueMinimal => 3,
            MinimalityClass::OwnerMinimal => 4,
            MinimalityClass::FaultMinimal => 5,
        }
    }

    /// `ALL` lists every member at its rank.
    pub proof fn lemma_all_lists(member: MinimalityClass)
        ensures
            0 <= member.rank() < 6,
            MinimalityClass::ALL@[member.rank()] == member,
    {
    }

    /// The member's stable token.
    pub open spec fn token(self) -> Seq<char> {
        match self {
            MinimalityClass::OneMinimal => "one-minimal"@,
            MinimalityClass::CardinalityMinimal => "cardinality-minimal"@,
            MinimalityClass::CausallyMinimal => "causally-minimal"@,
            MinimalityClass::ValueMinimal => "value-minimal"@,
            MinimalityClass::OwnerMinimal => "owner-minimal"@,
            MinimalityClass::FaultMinimal => "fault-minimal"@,
        }
    }

    /// The member's stable token.
    pub fn as_str(self) -> (text: &'static str)
        ensures
            text@ == self.token(),
    {
        match self {
            MinimalityClass::OneMinimal => "one-minimal",
            MinimalityClass::CardinalityMinimal => "cardinality-minimal",
            MinimalityClass::CausallyMinimal => "causally-minimal",
            MinimalityClass::ValueMinimal => "value-minimal",
            MinimalityClass::OwnerMinimal => "owner-minimal",
            MinimalityClass::FaultMinimal => "fault-minimal",
        }
    }

    /// The token's length and the characters that tell members' tokens apart.
    pub open spec fn signature(self) -> (int, char) {
        match self {
            MinimalityClass::OneMinimal => (11, 'o'),
            MinimalityClass::CardinalityMinimal => (19, 'c'),
            MinimalityClass::CausallyMinimal => (16, 'c'),
            MinimalityClass::ValueMinimal => (13, 'v'),
            MinimalityClass::OwnerMinimal => (13, 'o'),
            MinimalityClass::FaultMinimal => (13, 'f'),
        }
    }

    proof fn lemma_signature(member: MinimalityClass)
        ensures
            member.token().len() == member.signature().0,
            member.token()[0] == member.signature().1,
    {
        match member {
            MinimalityClass::OneMinimal => reveal_strlit("one-minimal"),
            MinimalityClass::CardinalityMinimal => reveal_strlit("cardinality-minimal"),
            MinimalityClass::CausallyMinimal => reveal_strlit("causally-minimal"),
            MinimalityClass::ValueMinimal => reveal_strlit("value-minimal"),
            MinimalityClass::OwnerMinimal => reveal_strlit("owner-minimal"),
            MinimalityClass::FaultMinimal => reveal_strlit("fault-minimal"),
        }
    }

    /// Distinct members have distinct tokens.
    pub proof fn lemma_token_injective(a: MinimalityClass, b: MinimalityClass)
        ensures
            a.token() == b.token() ==> a == b,
    {
        MinimalityClass::lemma_signature(a);
        MinimalityClass::lemma_signature(b);
    }

}

impl MinimalityClass {
    /// The guarantee a verified transcript for this class licenses.
    pub open spec fn licenses(self) -> Guarantee {
        match self {
            MinimalityClass::OneMinimal => Guarantee::OneMinimal,
            MinimalityClass::CardinalityMinimal => Guarantee::CardinalityMinimal,
            MinimalityClass::CausallyMinimal => Guarantee::CausallyMinimal,
            MinimalityClass::ValueMinimal => Guarantee::ValueMinimal,
            MinimalityClass::OwnerMinimal => Guarantee::OwnerMinimal,
            MinimalityClass::FaultMinimal => Guarantee::FaultMinimal,
        }
    }

    /// The guarantee a verified transcript for this class licenses. Never
    /// `ExplanationMinimal`.
    pub fn guarantee(self) -> (guarantee: Guarantee)
        ensures
            guarantee == self.licenses(),
    {
        match self {
            MinimalityClass::OneMinimal => Guarantee::OneMinimal,
            MinimalityClass::CardinalityMinimal => Guarantee::CardinalityMinimal,
            MinimalityClass::CausallyMinimal => Guarantee::CausallyMinimal,
            MinimalityClass::ValueMinimal => Guarantee::ValueMinimal,
            MinimalityClass::OwnerMinimal => Guarantee::OwnerMinimal,
            MinimalityClass::FaultMinimal => Guarantee::FaultMinimal,
        }
    }

    /// The class that licenses `guarantee`, where a transcript can license it at all.
    pub fn of(guarantee: Guarantee) -> (class: Option<MinimalityClass>)
        ensures
            forall|c: MinimalityClass| (class == Some(c)) == (c.licenses() == guarantee),
    {
        match guarantee {
            Guarantee::OneMinimal => Some(MinimalityClass::OneMinimal),
            Guarantee::CardinalityMinimal => Some(MinimalityClass::CardinalityMinimal),
            Guarantee::CausallyMinimal => Some(MinimalityClass::CausallyMinimal),
            Guarantee::ValueMinimal => Some(MinimalityClass::ValueMinimal),
            Guarantee::OwnerMinimal => Some(MinimalityClass::OwnerMinimal),
            Guarantee::FaultMinimal => Some(MinimalityClass::FaultMinimal),
            _ => None,
        }
    }

    /// The dimension this class minimises over, for the three that minimise over one.
    pub open spec fn dimension_of(self) -> Option<MinimizedDimension> {
        match self {
            MinimalityClass::ValueMinimal => Some(MinimizedDimension::Value),
            MinimalityClass::OwnerMinimal => Some(MinimizedDimension::Owner),
            MinimalityClass::FaultMinimal => Some(MinimizedDimension::Fault),
            _ => None,
        }
    }

    /// The dimension this class minimises over, for the three that minimise over one.
    pub fn dimension(self) -> (dimension: Option<MinimizedDimension>)
        ensures
            dimension == self.dimension_of(),
    {
        match self {
            MinimalityClass::ValueMinimal => Some(MinimizedDimension::Value),
            MinimalityClass::OwnerMinimal => Some(MinimizedDimension::Owner),
            MinimalityClass::FaultMinimal => Some(MinimizedDimension::Fault),
            _ => None,
        }
    }

    /// Whether this class's transcript must declare a search bound: exactly
    /// `CardinalityMinimal`.
    pub fn takes_bound(self) -> (bounded: bool)
        ensures
            bounded == (self == MinimalityClass::CardinalityMinimal),
    {
        matches!(self, MinimalityClass::CardinalityMinimal)
    }
}

/// No minimality class licenses `ExplanationMinimal`, and every other minimality guarantee is
/// licensed by exactly one class.
pub proof fn law_no_class_licenses_explanation_minimal(class: MinimalityClass, other: MinimalityClass)
    ensures
        class.licenses() != Guarantee::ExplanationMinimal,
        class.licenses() == other.licenses() ==> class == other,
{
}

/// One of the three dimensions a minimality class can reduce along.
#[derive(Debug, Clone, Copy, PartialEq, Eq, Hash, PartialOrd, Ord, Structural)]
pub enum MinimizedDimension {
    /// The value domain.
    Value,
    /// The owners.
    Owner,
    /// The injected faults.
    Fault,
}

impl MinimizedDimension {
    /// Every member, in declaration order.
    pub const ALL: [MinimizedDimension; 3] = [
        MinimizedDimension::Value,
        MinimizedDimension::Owner,
        MinimizedDimension::Fault,
    ];

    /// The member's position in declaration order.
    pub open spec fn rank(self) -> int {
        match self {
            MinimizedDimension::Value => 0,
            MinimizedDimension::Owner => 1,
            MinimizedDimension::Fault => 2,
        }
    }

    /// `ALL` lists every member at its rank.
    pub proof fn lemma_all_lists(member: MinimizedDimension)
        ensures
            0 <= member.rank() < 3,
            MinimizedDimension::ALL@[member.rank()] == member,
    {
    }

    /// The member's stable token.
    pub open spec fn token(self) -> Seq<char> {
        match self {
            MinimizedDimension::Value => "value"@,
            MinimizedDimension::Owner => "owner"@,
            MinimizedDimension::Fault => "fault"@,
        }
    }

    /// The member's stable token.
    pub fn as_str(self) -> (text: &'static str)
        ensures
            text@ == self.token(),
    {
        match self {
            MinimizedDimension::Value => "value",
            MinimizedDimension::Owner => "owner",
            MinimizedDimension::Fault => "fault",
        }
    }

    /// The token's length and the characters that tell members' tokens apart.
    pub open spec fn signature(self) -> (int, char) {
        match self {
            MinimizedDimension::Value => (5, 'v'),
            MinimizedDimension::Owner => (5, 'o'),
            MinimizedDimension::Fault => (5, 'f'),
        }
    }

    proof fn lemma_signature(member: MinimizedDimension)
        ensures
            member.token().len() == member.signature().0,
            member.token()[0] == member.signature().1,
    {
        match member {
            MinimizedDimension::Value => reveal_strlit("value"),
            MinimizedDimension::Owner => reveal_strlit("owner"),
            MinimizedDimension::Fault => reveal_strlit("fault"),
        }
    }

    /// Distinct members have distinct tokens.
    pub proof fn lemma_token_injective(a: MinimizedDimension, b: MinimizedDimension)
        ensures
            a.token() == b.token() ==> a == b,
    {
        MinimizedDimension::lemma_signature(a);
        MinimizedDimension::lemma_signature(b);
    }

}

impl MinimizedDimension {
    /// The class that minimises over this dimension.
    pub open spec fn class_of(self) -> MinimalityClass {
        match self {
            MinimizedDimension::Value => MinimalityClass::ValueMinimal,
            MinimizedDimension::Owner => MinimalityClass::OwnerMinimal,
            MinimizedDimension::Fault => MinimalityClass::FaultMinimal,
        }
    }

    /// The class that minimises over this dimension.
    pub fn class(self) -> (class: MinimalityClass)
        ensures
            class == self.class_of(),
    {
        match self {
            MinimizedDimension::Value => MinimalityClass::ValueMinimal,
            MinimizedDimension::Owner => MinimalityClass::OwnerMinimal,
            MinimizedDimension::Fault => MinimalityClass::FaultMinimal,
        }
    }
}

/// A dimension and its class point at each other.
pub proof fn law_dimension_and_class_agree(dimension: MinimizedDimension, class: MinimalityClass)
    ensures
        dimension.class_of().dimension_of() == Some(dimension),
        class.dimension_of() matches Some(d) ==> d.class_of() == class,
{
}

/// The declared bound of an exhaustive smaller-set search: a positive number of removals.
#[derive(Debug, Clone, Copy, PartialEq, Eq, Hash, PartialOrd, Ord, Structural)]
pub struct SearchBound {
    max_removed: usize,
}

impl SearchBound {
    #[verifier::type_invariant]
    spec fn removes_something(self) -> bool {
        self.max_removed > 0
    }

    /// How many items at most one examined removal took away.
    pub closed spec fn limit(self) -> nat {
        self.max_removed as nat
    }

    /// Declare that every removal of up to `max_removed` items was examined. `None` for zero.
    pub fn of(max_removed: usize) -> (bound: Option<SearchBound>)
        ensures
            bound is None <==> max_removed == 0,
            bound matches Some(b) ==> b.limit() == max_removed,
    {
        if max_removed == 0 {
            None
        } else {
            Some(SearchBound { max_removed })
        }
    }

    /// How many items at most one examined removal took away.
    pub fn max_removed(self) -> (limit: usize)
        ensures
            limit == self.limit(),
            limit > 0,
    {
        proof { use_type_invariant(self); }
        self.max_removed
    }
}

/// What one removal did to the witness.
#[derive(Debug, Clone, Copy, PartialEq, Eq, Hash, PartialOrd, Ord, Structural)]
pub enum WitnessOutcome {
    /// The reduced set no longer witnesses the failure.
    Destroyed,
    /// The reduced set still witnesses the failure.
    Survived,
}

impl WitnessOutcome {
    /// Every member, in declaration order.
    pub const ALL: [WitnessOutcome; 2] = [
        WitnessOutcome::Destroyed,
        WitnessOutcome::Survived,
    ];

    /// The member's position in declaration order.
    pub open spec fn rank(self) -> int {
        match self {
            WitnessOutcome::Destroyed => 0,
            WitnessOutcome::Survived => 1,
        }
    }

    /// `ALL` lists every member at its rank.
    pub proof fn lemma_all_lists(member: WitnessOutcome)
        ensures
            0 <= member.rank() < 2,
            WitnessOutcome::ALL@[member.rank()] == member,
    {
    }

    /// The member's stable token.
    pub open spec fn token(self) -> Seq<char> {
        match self {
            WitnessOutcome::Destroyed => "destroyed"@,
            WitnessOutcome::Survived => "survived"@,
        }
    }

    /// The member's stable token.
    pub fn as_str(self) -> (text: &'static str)
        ensures
            text@ == self.token(),
    {
        match self {
            WitnessOutcome::Destroyed => "destroyed",
            WitnessOutcome::Survived => "survived",
        }
    }

    /// The token's length and the characters that tell members' tokens apart.
    pub open spec fn signature(self) -> int {
        match self {
            WitnessOutcome::Destroyed => 9,
            WitnessOutcome::Survived => 8,
        }
    }

    proof fn lemma_signature(member: WitnessOutcome)
        ensures
            member.token().len() == member.signature(),
    {
        match member {
            WitnessOutcome::Destroyed => reveal_strlit("destroyed"),
            WitnessOutcome::Survived => reveal_strlit("survived"),
        }
    }

    /// Distinct members have distinct tokens.
    pub proof fn lemma_token_injective(a: WitnessOutcome, b: WitnessOutcome)
        ensures
            a.token() == b.token() ==> a == b,
    {
        WitnessOutcome::lemma_signature(a);
        WitnessOutcome::lemma_signature(b);
    }

}

impl WitnessOutcome {
    /// The outcome an automaton's verdict on a smaller set means: a set that still runs to
    /// `Violated` still witnesses the failure.
    pub open spec fn from_verdict(verdict: AutomatonVerdict) -> WitnessOutcome {
        match verdict {
            AutomatonVerdict::Violated => WitnessOutcome::Survived,
            AutomatonVerdict::Satisfied => WitnessOutcome::Destroyed,
        }
    }

    /// Read an outcome off a reduced set's automaton verdict.
    pub fn of(verdict: AutomatonVerdict) -> (outcome: WitnessOutcome)
        ensures
            outcome == WitnessOutcome::from_verdict(verdict),
    {
        match verdict {
            AutomatonVerdict::Violated => WitnessOutcome::Survived,
            AutomatonVerdict::Satisfied => WitnessOutcome::Destroyed,
        }
    }
}

/// A stable token for stage 8's auditable intermediate.
#[derive(Debug, Clone, Copy, PartialEq, Eq, Hash, PartialOrd, Ord, Structural)]
pub enum MinimalityOutcome {
    /// Stage 8 was configured with no class to attempt.
    NothingAsked,
    /// Stage 3 did not run, so nothing can decide whether a set witnesses the failure.
    NoProperty,
    /// At least one class's transcript verified.
    Licensed,
    /// Classes were attempted and none verified.
    Unlicensed,
}

impl MinimalityOutcome {
    /// Every member, in declaration order.
    pub const ALL: [MinimalityOutcome; 4] = [
        MinimalityOutcome::NothingAsked,
        MinimalityOutcome::NoProperty,
        MinimalityOutcome::Licensed,
        MinimalityOutcome::Unlicensed,
    ];

    /// The member's position in declaration order.
    pub open spec fn rank(self) -> int {
        match self {
            MinimalityOutcome::NothingAsked => 0,
            MinimalityOutcome::NoProperty => 1,
            MinimalityOutcome::Licensed => 2,
            MinimalityOutcome::Unlicensed => 3,
        }
    }

    /// `ALL` lists every member at its rank.
    pub proof fn lemma_all_lists(member: MinimalityOutcome)
        ensures
            0 <= member.rank() < 4,
            MinimalityOutcome::ALL@[member.rank()] == member,
    {
    }

    /// The member's stable token.
    pub open spec fn token(self) -> Seq<char> {
        match self {
            MinimalityOutcome::NothingAsked => "minimality-nothing-asked"@,
            MinimalityOutcome::NoProperty => "minimality-no-property"@,
            MinimalityOutcome::Licensed => "minimality-licensed"@,
            MinimalityOutcome::Unlicensed => "minimality-unlicensed"@,
        }
    }

    /// The member's stable token.
    pub fn as_str(self) -> (text: &'static str)
        ensures
            text@ == self.token(),
    {
        match self {
            MinimalityOutcome::NothingAsked => "minimality-nothing-asked",
            MinimalityOutcome::NoProperty => "minimality-no-property",
            MinimalityOutcome::Licensed => "minimality-licensed",
            MinimalityOutcome::Unlicensed => "minimality-unlicensed",
        }
    }

    /// The token's length and the characters that tell members' tokens apart.
    pub open spec fn signature(self) -> int {
        match self {
            MinimalityOutcome::NothingAsked => 24,
            MinimalityOutcome::NoProperty => 22,
            MinimalityOutcome::Licensed => 19,
            MinimalityOutcome::Unlicensed => 21,
        }
    }

    proof fn lemma_signature(member: MinimalityOutcome)
        ensures
            member.token().len() == member.signature(),
    {
        match member {
            MinimalityOutcome::NothingAsked => reveal_strlit("minimality-nothing-asked"),
            MinimalityOutcome::NoProperty => reveal_strlit("minimality-no-property"),
            MinimalityOutcome::Licensed => reveal_strlit("minimality-licensed"),
            MinimalityOutcome::Unlicensed => reveal_strlit("minimality-unlicensed"),
        }
    }

    /// Distinct members have distinct tokens.
    pub proof fn lemma_token_injective(a: MinimalityOutcome, b: MinimalityOutcome)
        ensures
            a.token() == b.token() ==> a == b,
    {
        MinimalityOutcome::lemma_signature(a);
        MinimalityOutcome::lemma_signature(b);
    }

}

/// A way a stage-8 input fails to be one.
#[derive(Debug, Clone, Copy, PartialEq, Eq, Structural)]
pub enum MinimalityError {
    /// A transcript is filed under a class that is not its own.
    ClassMismatch {
        /// The class it was filed under.
        filed: MinimalityClass,
        /// The class it records.
        recorded: MinimalityClass,
    },
}


/// Why a minimality class cannot be claimed in this shape at all.
#[derive(Debug, Clone, PartialEq, Eq)]
pub enum MinimalityRefusal {
    /// No property automaton ran, so nothing decides whether a set still witnesses the failure.
    NoProperty,
    /// The question named no class to attempt.
    NothingAsked,
    /// The core is empty: a minimality claim about nothing is vacuous.
    EmptyCore,
    /// The core does not witness the failure.
    NoWitness,
    /// `CardinalityMinimal` was asked for with no declared bound.
    UnboundedSearch,
    /// A dimension class was asked for and no attribution was declared for its dimension.
    DimensionNotDeclared {
        /// The dimension nobody described.
        dimension: MinimizedDimension,
    },
    /// The declared attribution omits a core member.
    UndeclaredAttribution {
        /// The dimension whose attribution is incomplete.
        dimension: MinimizedDimension,
        /// The first unattributed core member, in canonical order.
        id: Name,
    },
}

impl MinimalityRefusal {
    /// The refusal's stable token.
    pub open spec fn token(&self) -> Seq<char> {
        match self {
            MinimalityRefusal::NoProperty => "no-property"@,
            MinimalityRefusal::NothingAsked => "nothing-asked"@,
            MinimalityRefusal::EmptyCore => "empty-core"@,
            MinimalityRefusal::NoWitness => "no-witness"@,
            MinimalityRefusal::UnboundedSearch => "unbounded-search"@,
            MinimalityRefusal::DimensionNotDeclared { .. } => "dimension-not-declared"@,
            MinimalityRefusal::UndeclaredAttribution { .. } => "undeclared-attribution"@,
        }
    }

    /// The refusal's stable token.
    pub fn as_str(&self) -> (text: &'static str)
        ensures
            text@ == self.token(),
    {
        match self {
            MinimalityRefusal::NoProperty => "no-property",
            MinimalityRefusal::NothingAsked => "nothing-asked",
            MinimalityRefusal::EmptyCore => "empty-core",
            MinimalityRefusal::NoWitness => "no-witness",
            MinimalityRefusal::UnboundedSearch => "unbounded-search",
            MinimalityRefusal::DimensionNotDeclared { .. } => "dimension-not-declared",
            MinimalityRefusal::UndeclaredAttribution { .. } => "undeclared-attribution",
        }
    }

    /// The token's length and first character, which tell the refusals' tokens apart.
    pub open spec fn signature(&self) -> (int, char) {
        match self {
            MinimalityRefusal::NoProperty => (11, 'n'),
            MinimalityRefusal::NothingAsked => (13, 'n'),
            MinimalityRefusal::EmptyCore => (10, 'e'),
            MinimalityRefusal::NoWitness => (10, 'n'),
            MinimalityRefusal::UnboundedSearch => (16, 'u'),
            MinimalityRefusal::DimensionNotDeclared { .. } => (22, 'd'),
            MinimalityRefusal::UndeclaredAttribution { .. } => (22, 'u'),
        }
    }

    proof fn lemma_signature(refusal: &MinimalityRefusal)
        ensures
            refusal.token().len() == refusal.signature().0,
            refusal.token()[0] == refusal.signature().1,
    {
        match refusal {
            MinimalityRefusal::NoProperty => reveal_strlit("no-property"),
            MinimalityRefusal::NothingAsked => reveal_strlit("nothing-asked"),
            MinimalityRefusal::EmptyCore => reveal_strlit("empty-core"),
            MinimalityRefusal::NoWitness => reveal_strlit("no-witness"),
            MinimalityRefusal::UnboundedSearch => reveal_strlit("unbounded-search"),
            MinimalityRefusal::DimensionNotDeclared { .. } => reveal_strlit("dimension-not-declared"),
            MinimalityRefusal::UndeclaredAttribution { .. } => reveal_strlit("undeclared-attribution"),
        }
    }

    /// Refusals of different kinds have different tokens.
    pub proof fn lemma_token_distinguishes(a: &MinimalityRefusal, b: &MinimalityRefusal)
        ensures
            a.token() == b.token() ==> a.kind_rank() == b.kind_rank(),
    {
        MinimalityRefusal::lemma_signature(a);
        MinimalityRefusal::lemma_signature(b);
        if a.token() == b.token() && a.kind_rank() != b.kind_rank() {
            match (a, b) {
                (MinimalityRefusal::NoProperty, MinimalityRefusal::NoWitness) => {
                    reveal_strlit("no-property");
                    reveal_strlit("no-witness");
                },
                (MinimalityRefusal::NoWitness, MinimalityRefusal::NoProperty) => {
                    reveal_strlit("no-property");
                    reveal_strlit("no-witness");
                },
                (MinimalityRefusal::DimensionNotDeclared { .. }, MinimalityRefusal::UndeclaredAttribution { .. }) => {},
                (MinimalityRefusal::UndeclaredAttribution { .. }, MinimalityRefusal::DimensionNotDeclared { .. }) => {},
                _ => {},
            }
        }
    }

    /// The variant's position in declaration order.
    pub open spec fn kind_rank(&self) -> int {
        match self {
            MinimalityRefusal::NoProperty => 0,
            MinimalityRefusal::NothingAsked => 1,
            MinimalityRefusal::EmptyCore => 2,
            MinimalityRefusal::NoWitness => 3,
            MinimalityRefusal::UnboundedSearch => 4,
            MinimalityRefusal::DimensionNotDeclared { .. } => 5,
            MinimalityRefusal::UndeclaredAttribution { .. } => 6,
        }
    }
}

/// The attribution parallel listings of candidates and elements spell.
pub open spec fn elements_by_name(names: Seq<Seq<char>>, elements: Seq<Seq<char>>) -> Map<Seq<char>, Seq<char>> {
    Map::new(|id: Seq<char>| names.contains(id), |id: Seq<char>| elements[names.index_of(id)])
}

/// In a listing without repeats, each candidate maps to the element beside it.
proof fn lemma_element_at(names: Seq<Seq<char>>, elements: Seq<Seq<char>>, i: int)
    requires
        names.no_duplicates(),
        0 <= i < names.len(),
    ensures
        elements_by_name(names, elements).dom().contains(names[i]),
        elements_by_name(names, elements)[names[i]] == elements[i],
{
    assert(names.contains(names[i]));
    let j = names.index_of(names[i]);
    assert(0 <= j < names.len() && names[j] == names[i]);
}

/// The attribution a list of `(candidate, element)` pairs spells: each candidate carries the
/// element given last for it.
pub open spec fn attribution_of(entries: Seq<(Seq<char>, Seq<char>)>) -> Map<Seq<char>, Seq<char>>
    decreases entries.len(),
{
    if entries.len() == 0 {
        Map::empty()
    } else {
        attribution_of(entries.drop_last()).insert(entries.last().0, entries.last().1)
    }
}

/// The identifier pairs a list of `(candidate, element)` name pairs spells.
pub open spec fn pair_names(entries: Seq<(Name, Name)>) -> Seq<(Seq<char>, Seq<char>)> {
    entries.map_values(|e: (Name, Name)| (e.0@, e.1@))
}

/// A declared attribution of candidates to the elements of one dimension.
#[derive(Debug, PartialEq, Eq)]
pub struct DimensionAttribution {
    dimension: MinimizedDimension,
    names: Vec<Name>,
    elements: Vec<Name>,
}

impl View for DimensionAttribution {
    type V = Map<Seq<char>, Seq<char>>;

    closed spec fn view(&self) -> Map<Seq<char>, Seq<char>> {
        elements_by_name(spelled(self.names@), spelled(self.elements@))
    }
}

impl DimensionAttribution {
    #[verifier::type_invariant]
    spec fn canonical(self) -> bool {
        &&& self.names@.len() == self.elements@.len()
        &&& strictly_ascending(spelled(self.names@))
    }

    /// Which dimension this attribution is about.
    pub closed spec fn about(&self) -> MinimizedDimension {
        self.dimension
    }

    /// The attributed candidates, in canonical order.
    pub closed spec fn listing(&self) -> Seq<Seq<char>> {
        spelled(self.names@)
    }

    fn facts(&self)
        ensures
            strictly_ascending(self.listing()),
            self.listing().no_duplicates(),
            self@.dom() == self.listing().to_set(),
            self.names@.len() == self.elements@.len(),
            forall|i: int| 0 <= i < self.listing().len() ==> self@[#[trigger] self.listing()[i]] == self.elements@[i]@,
    {
        proof {
            use_type_invariant(self);
            lemma_ascending_no_duplicates(self.listing());
            assert(self@.dom() =~= self.listing().to_set());
            assert forall|i: int| 0 <= i < self.listing().len() implies self@[#[trigger] self.listing()[i]] == self.elements@[i]@ by {
                lemma_element_at(self.listing(), spelled(self.elements@), i);
            }
        }
    }

    /// Declare `entries`, `(candidate, element)` pairs, as this dimension's attribution; a
    /// candidate given twice carries the element given last.
    pub fn new(dimension: MinimizedDimension, entries: Vec<(Name, Name)>) -> (attribution: DimensionAttribution)
        ensures
            attribution.about() == dimension,
            attribution@ == attribution_of(pair_names(entries@)),
    {
        let ghost all = pair_names(entries@);
        let n = entries.len();
        let mut names: Vec<Name> = Vec::new();
        let mut elements: Vec<Name> = Vec::new();
        let mut i: usize = 0;
        while i < n
            invariant
                n == entries@.len(),
                all == pair_names(entries@),
                i <= n,
                names@.len() == elements@.len(),
                strictly_ascending(spelled(names@)),
                elements_by_name(spelled(names@), spelled(elements@)) == attribution_of(all.subrange(0, i as int)),
            decreases n - i,
        {
            let ghost before = elements_by_name(spelled(names@), spelled(elements@));
            let ghost old_names = spelled(names@);
            let ghost old_elements = spelled(elements@);
            let id = entries[i].0.clone();
            let element = entries[i].1.clone();
            proof {
                lemma_ascending_no_duplicates(old_names);
                assert(all.subrange(0, i + 1).drop_last() =~= all.subrange(0, i as int));
                assert(all[i as int] == (id@, element@));
            }
            match locate(names.as_slice(), &id) {
                Ok(p) => {
                    elements.set(p, element);
                    proof {
                        let now = spelled(elements@);
                        assert(now =~= old_elements.update(p as int, element@));
                        assert(spelled(names@) == old_names);
                        assert(elements_by_name(old_names, now) =~= before.insert(id@, element@)) by {
                            assert forall|x: Seq<char>| #[trigger] elements_by_name(old_names, now).dom().contains(x)
                                implies elements_by_name(old_names, now)[x] == before.insert(id@, element@)[x] by {
                                assert(old_names.contains(x));
                                let q = old_names.index_of(x);
                                assert(old_names[q] == x);
                                assert(old_names[p as int] == id@);
                                lemma_element_at(old_names, now, q);
                                lemma_element_at(old_names, old_elements, q);
                            }
                            assert(old_names.contains(id@)) by {
                                assert(old_names[p as int] == id@);
                            }
                        }
                    }
                },
                Err(p) => {
                    proof { lemma_insert_ascending(old_names, p as int, id@); }
                    names.insert(p, id);
                    elements.insert(p, element);
                    proof {
                        let now = spelled(names@);
                        let now_elements = spelled(elements@);
                        assert(now =~= old_names.insert(p as int, id@));
                        assert(now_elements =~= old_elements.insert(p as int, element@));
                        lemma_ascending_no_duplicates(now);
                        assert(elements_by_name(now, now_elements) =~= before.insert(id@, element@)) by {
                            assert forall|x: Seq<char>| elements_by_name(now, now_elements).dom().contains(x)
                                <==> before.insert(id@, element@).dom().contains(x) by {
                                assert(now.to_set() == old_names.to_set().insert(id@));
                                if now.contains(x) {
                                    assert(now.to_set().contains(x));
                                }
                                if old_names.contains(x) {
                                    assert(old_names.to_set().contains(x));
                                    assert(now.to_set().contains(x));
                                }
                                if x == id@ {
                                    assert(now[p as int] == id@);
                                }
                            }
                            assert forall|x: Seq<char>| #[trigger] elements_by_name(now, now_elements).dom().contains(x)
                                implies elements_by_name(now, now_elements)[x] == before.insert(id@, element@)[x] by {
                                let q = now.index_of(x);
                                lemma_element_at(now, now_elements, q);
                                if q < p {
                                    lemma_element_at(old_names, old_elements, q);
                                } else if q > p {
                                    lemma_element_at(old_names, old_elements, q - 1);
                                }
                            }
                        }
                    }
                },
            }
            i = i + 1;
        }
        proof {
            assert(all.subrange(0, n as int) =~= all);
        }
        DimensionAttribution { dimension, names, elements }
    }

    /// Which dimension this attribution is about.
    pub fn dimension(&self) -> (dimension: MinimizedDimension)
        ensures
            dimension == self.about(),
    {
        self.dimension
    }

    /// The element this candidate carries, where one was declared.
    pub fn element(&self, id: &Name) -> (element: Option<&Name>)
        ensures
            element is Some <==> self@.dom().contains(id@),
            element matches Some(e) ==> e@ == self@[id@],
    {
        self.facts();
        match locate(self.names.as_slice(), id) {
            Ok(p) => {
                proof { assert(self.listing()[p as int] == id@); }
                Some(&self.elements[p])
            },
            Err(_) => {
                proof {
                    assert forall|q: int| 0 <= q < self.listing().len() implies self.listing()[q] != id@ by {
                        assert(self.listing()[q] == self.names@[q]@);
                    }
                }
                None
            },
        }
    }

    /// Whether this candidate's element was declared.
    pub fn is_attributed(&self, id: &Name) -> (attributed: bool)
        ensures
            attributed == self@.dom().contains(id@),
    {
        self.element(id).is_some()
    }

    /// Every declared pair, in canonical order of the candidates.
    pub fn attributed(&self) -> (pairs: Vec<(Name, Name)>)
        ensures
            pairs@.len() == self.listing().len(),
            strictly_ascending(self.listing()),
            self.listing().to_set() == self@.dom(),
            forall|i: int| 0 <= i < pairs@.len() ==> (#[trigger] pairs@[i]).0@ == self.listing()[i]
                && pairs@[i].1@ == self@[self.listing()[i]],
    {
        self.facts();
        let n = self.names.len();
        let mut pairs: Vec<(Name, Name)> = Vec::new();
        let mut i: usize = 0;
        while i < n
            invariant
                n == self.names@.len(),
                n == self.elements@.len(),
                i <= n,
                pairs@.len() == i,
                forall|q: int| 0 <= q < i ==> (#[trigger] pairs@[q]).0@ == self.names@[q]@
                    && pairs@[q].1@ == self.elements@[q]@,
            decreases n - i,
        {
            pairs.push((self.names[i].clone(), self.elements[i].clone()));
            i = i + 1;
        }
        proof {
            assert forall|q: int| 0 <= q < pairs@.len() implies (#[trigger] pairs@[q]).0@ == self.listing()[q]
                && pairs@[q].1@ == self@[self.listing()[q]] by {
                assert(self.listing()[q] == self.names@[q]@);
            }
        }
        pairs
    }

    /// The elements the members of `core` carry.
    pub fn elements_in(&self, core: &NameSet) -> (elements: NameSet)
        ensures
            elements.contents() == carried(self@, core.contents()),
    {
        let members = core.members();
        let mut elements = NameSet::new();
        let mut i: usize = 0;
        while i < members.len()
            invariant
                spelled(members@) == core.listing(),
                i <= members@.len(),
                elements.contents() == carried(self@, core.listing().subrange(0, i as int).to_set()),
            decreases members@.len() - i,
        {
            let ghost before = core.listing().subrange(0, i as int);
            let ghost x = core.listing()[i as int];
            proof {
                assert(x == members@[i as int]@);
                assert(core.listing().subrange(0, i + 1) =~= before.push(x));
                lemma_push_to_set(before, x);
            }
            match self.element(&members[i]) {
                Some(e) => {
                    elements.insert(e.clone());
                    proof {
                        assert(carried(self@, before.to_set().insert(x)) =~= carried(self@, before.to_set()).insert(e@));
                    }
                },
                None => {
                    proof {
                        assert(carried(self@, before.to_set().insert(x)) =~= carried(self@, before.to_set()));
                    }
                },
            }
            i = i + 1;
        }
        proof {
            assert(core.listing().subrange(0, i as int) =~= core.listing());
        }
        elements
    }
}

/// The elements the attributed members of `core` carry.
pub open spec fn carried(attribution: Map<Seq<char>, Seq<char>>, core: Set<Seq<char>>) -> Set<Seq<char>> {
    Set::new(|v: Seq<char>| exists|x: Seq<char>| core.contains(x) && attribution.dom().contains(x) && attribution[x] == v)
}


/// The members of `core` that carry the element `x` carries.
pub open spec fn unit_of(attribution: Map<Seq<char>, Seq<char>>, core: Set<Seq<char>>, x: Seq<char>) -> Set<Seq<char>> {
    core.filter(|y: Seq<char>| attribution.dom().contains(y) && attribution[y] == attribution[x])
}

/// The removal family an attribution induces over `core`: one unit per element present,
/// holding every core member carrying it.
pub open spec fn units_over(attribution: Map<Seq<char>, Seq<char>>, core: Set<Seq<char>>) -> Set<Set<Seq<char>>> {
    core.map(|x: Seq<char>| unit_of(attribution, core, x))
}

/// Whether `id` is the first member of `listing` the attribution leaves out.
pub open spec fn first_unattributed(listing: Seq<Seq<char>>, attribution: Map<Seq<char>, Seq<char>>, id: Seq<char>) -> bool {
    exists|i: int| 0 <= i < listing.len() && listing[i] == id && !attribution.dom().contains(id)
        && forall|j: int| 0 <= j < i ==> attribution.dom().contains(#[trigger] listing[j])
}

/// Mapping a set grown by one member grows the image by that member's image.
proof fn lemma_map_insert(s: Set<Seq<char>>, x: Seq<char>, f: spec_fn(Seq<char>) -> Set<Seq<char>>)
    ensures
        s.insert(x).map(f) == s.map(f).insert(f(x)),
{
    assert forall|u: Set<Seq<char>>| s.insert(x).map(f).contains(u) <==> s.map(f).insert(f(x)).contains(u) by {
        if s.insert(x).map(f).contains(u) {
            let y = choose|y: Seq<char>| s.insert(x).contains(y) && u == f(y);
            if y != x {
                assert(s.contains(y) && u == f(y));
            }
        }
        if s.map(f).contains(u) {
            let y = choose|y: Seq<char>| s.contains(y) && u == f(y);
            assert(s.insert(x).contains(y) && u == f(y));
        }
        if u == f(x) {
            assert(s.insert(x).contains(x) && u == f(x));
        }
    }
    assert(s.insert(x).map(f) =~= s.map(f).insert(f(x)));
}

impl DimensionAttribution {
    /// The removal family this attribution induces over `core`: one unit per element present,
    /// holding every core member carrying it. Refused, naming the first core member in
    /// canonical order, when some core member carries no declared element.
    pub fn units(&self, core: &NameSet) -> (units: Result<NameFamily, MinimalityRefusal>)
        ensures
            units is Ok <==> core.contents().subset_of(self@.dom()),
            units matches Ok(family) ==> family.sets() == units_over(self@, core.contents()),
            units matches Err(refusal) ==> refusal matches MinimalityRefusal::UndeclaredAttribution { dimension, id }
                && dimension == self.about() && first_unattributed(core.listing(), self@, id@),
    {
        let members = core.members();
        let n = members.len();
        let mut i: usize = 0;
        while i < n
            invariant
                n == members@.len(),
                spelled(members@) == core.listing(),
                i <= n,
                forall|j: int| 0 <= j < i ==> self@.dom().contains(#[trigger] core.listing()[j]),
            decreases n - i,
        {
            proof { assert(core.listing()[i as int] == members@[i as int]@); }
            if !self.is_attributed(&members[i]) {
                proof {
                    assert(!core.contents().subset_of(self@.dom())) by {
                        assert(core.contents().contains(core.listing()[i as int]));
                    }
                }
                return Err(MinimalityRefusal::UndeclaredAttribution { dimension: self.dimension, id: members[i].clone() });
            }
            i = i + 1;
        }
        proof {
            assert forall|x: Seq<char>| core.contents().contains(x) implies self@.dom().contains(x) by {
                let k = choose|k: int| 0 <= k < core.listing().len() && core.listing()[k] == x;
                assert(self@.dom().contains(core.listing()[k]));
            }
        }
        let ghost whole = core.contents();
        let ghost f = |x: Seq<char>| unit_of(self@, whole, x);
        let mut family = NameFamily::new();
        let mut i: usize = 0;
        while i < n
            invariant
                n == members@.len(),
                spelled(members@) == core.listing(),
                whole == core.contents(),
                whole.subset_of(self@.dom()),
                f == (|x: Seq<char>| unit_of(self@, whole, x)),
                i <= n,
                family.sets() == core.listing().subrange(0, i as int).to_set().map(f),
            decreases n - i,
        {
            let ghost x = core.listing()[i as int];
            proof { assert(x == members@[i as int]@); }
            let unit = self.unit(core, &members[i]);
            family.insert(unit);
            proof {
                let before = core.listing().subrange(0, i as int);
                assert(core.listing().subrange(0, i + 1) =~= before.push(x));
                lemma_push_to_set(before, x);
                lemma_map_insert(before.to_set(), x, f);
            }
            i = i + 1;
        }
        proof {
            assert(core.listing().subrange(0, n as int) =~= core.listing());
        }
        Ok(family)
    }

    /// The members of `core` carrying the element `x` carries.
    fn unit(&self, core: &NameSet, x: &Name) -> (unit: NameSet)
        requires
            self@.dom().contains(x@),
        ensures
            unit.contents() == unit_of(self@, core.contents(), x@),
    {
        let ghost p = |y: Seq<char>| self@.dom().contains(y) && self@[y] == self@[x@];
        let target = self.element(x);
        let members = core.members();
        let mut unit = NameSet::new();
        let mut j: usize = 0;
        while j < members.len()
            invariant
                spelled(members@) == core.listing(),
                target matches Some(t) && t@ == self@[x@],
                p == (|y: Seq<char>| self@.dom().contains(y) && self@[y] == self@[x@]),
                j <= members@.len(),
                unit.contents() == core.listing().subrange(0, j as int).to_set().filter(p),
            decreases members@.len() - j,
        {
            let ghost y = core.listing()[j as int];
            proof { assert(y == members@[j as int]@); }
            let carries = match (self.element(&members[j]), target) {
                (Some(e), Some(t)) => e.same(t),
                _ => false,
            };
            let ghost before = core.listing().subrange(0, j as int);
            if carries {
                unit.insert(members[j].clone());
            }
            proof {
                assert(core.listing().subrange(0, j + 1) =~= before.push(y));
                lemma_push_to_set(before, y);
                assert(carries == p(y));
                if carries {
                    assert(before.to_set().insert(y).filter(p) =~= before.to_set().filter(p).insert(y));
                } else {
                    assert(before.to_set().insert(y).filter(p) =~= before.to_set().filter(p));
                }
            }
            j = j + 1;
        }
        proof {
            assert(core.listing().subrange(0, j as int) =~= core.listing());
            assert(core.contents().filter(p) =~= unit_of(self@, core.contents(), x@));
        }
        unit
    }
}


/// The attribution declared last for `dimension` in a list of declarations.
pub open spec fn last_declared(
    entries: Seq<(MinimizedDimension, Map<Seq<char>, Seq<char>>)>,
    dimension: MinimizedDimension,
) -> Option<Map<Seq<char>, Seq<char>>>
    decreases entries.len(),
{
    if entries.len() == 0 {
        None
    } else if entries.last().0 == dimension {
        Some(entries.last().1)
    } else {
        last_declared(entries.drop_last(), dimension)
    }
}

/// The dimension and attribution each of a list of attributions declares.
pub open spec fn declarations(attributions: Seq<DimensionAttribution>) -> Seq<(MinimizedDimension, Map<Seq<char>, Seq<char>>)> {
    attributions.map_values(|a: DimensionAttribution| (a.about(), a@))
}

/// The dimension attributions a question declares, at most one per dimension.
#[derive(Debug, PartialEq, Eq)]
pub struct DimensionSet {
    value: Option<DimensionAttribution>,
    owner: Option<DimensionAttribution>,
    fault: Option<DimensionAttribution>,
}

impl DimensionSet {
    #[verifier::type_invariant]
    spec fn filed(self) -> bool {
        &&& self.value matches Some(a) ==> a.about() == MinimizedDimension::Value
        &&& self.owner matches Some(a) ==> a.about() == MinimizedDimension::Owner
        &&& self.fault matches Some(a) ==> a.about() == MinimizedDimension::Fault
    }

    spec fn slot(&self, dimension: MinimizedDimension) -> Option<DimensionAttribution> {
        match dimension {
            MinimizedDimension::Value => self.value,
            MinimizedDimension::Owner => self.owner,
            MinimizedDimension::Fault => self.fault,
        }
    }

    /// The attribution declared for `dimension`, where one was.
    pub closed spec fn declared_for(&self, dimension: MinimizedDimension) -> Option<Map<Seq<char>, Seq<char>>> {
        match self.slot(dimension) {
            Some(a) => Some(a@),
            None => None,
        }
    }

    /// A question that declares no dimension at all.
    pub fn empty() -> (set: DimensionSet)
        ensures
            forall|d: MinimizedDimension| #[trigger] set.declared_for(d) is None,
    {
        DimensionSet { value: None, owner: None, fault: None }
    }

    /// Declare these attributions; a later attribution for one dimension replaces an earlier
    /// one.
    pub fn of(attributions: Vec<DimensionAttribution>) -> (set: DimensionSet)
        ensures
            forall|d: MinimizedDimension| #[trigger] set.declared_for(d) == last_declared(declarations(attributions@), d),
    {
        let ghost all = declarations(attributions@);
        let n = attributions.len();
        let mut rest = attributions;
        let mut set = DimensionSet::empty();
        let mut i: usize = 0;
        while rest.len() > 0
            invariant
                n == all.len(),
                i + rest@.len() == n,
                declarations(rest@) == all.subrange(i as int, n as int),
                forall|d: MinimizedDimension| #[trigger] set.declared_for(d) == last_declared(all.subrange(0, i as int), d),
            decreases rest@.len(),
        {
            let ghost before = rest@;
            let attribution = rest.remove(0);
            proof {
                assert(declarations(before)[0] == (attribution.about(), attribution@));
                assert(all[i as int] == declarations(before)[0]);
                assert(declarations(rest@) =~= declarations(before).subrange(1, before.len() as int));
                assert(all.subrange(0, i + 1).drop_last() =~= all.subrange(0, i as int));
                use_type_invariant(&set);
            }
            let dimension = attribution.dimension();
            let ghost old_set = set;
            let ghost entry = (attribution.about(), attribution@);
            let DimensionSet { value, owner, fault } = set;
            set = match dimension {
                MinimizedDimension::Value => DimensionSet { value: Some(attribution), owner, fault },
                MinimizedDimension::Owner => DimensionSet { value, owner: Some(attribution), fault },
                MinimizedDimension::Fault => DimensionSet { value, owner, fault: Some(attribution) },
            };
            proof {
                let grown_prefix = all.subrange(0, i + 1);
                assert(grown_prefix.last() == entry);
                assert forall|d: MinimizedDimension| #[trigger] set.declared_for(d) == last_declared(grown_prefix, d) by {
                    if d != dimension {
                        assert(set.declared_for(d) == old_set.declared_for(d));
                    }
                }
            }
            i = i + 1;
        }
        proof {
            assert(all.subrange(0, n as int) =~= all);
        }
        set
    }

    /// The attribution declared for `dimension`, where one was.
    pub fn attribution(&self, dimension: MinimizedDimension) -> (attribution: Option<&DimensionAttribution>)
        ensures
            attribution is Some <==> self.declared_for(dimension) is Some,
            attribution matches Some(a) ==> self.declared_for(dimension) == Some(a@) && a.about() == dimension,
    {
        proof { use_type_invariant(self); }
        match dimension {
            MinimizedDimension::Value => self.value.as_ref(),
            MinimizedDimension::Owner => self.owner.as_ref(),
            MinimizedDimension::Fault => self.fault.as_ref(),
        }
    }

    /// The dimensions this question declared, in declaration order of the dimensions.
    pub fn declared(&self) -> (declared: Vec<MinimizedDimension>)
        ensures
            forall|d: MinimizedDimension| declared@.contains(d) <==> (#[trigger] self.declared_for(d)) is Some,
            forall|i: int, j: int| 0 <= i < j < declared@.len() ==> (#[trigger] declared@[i]).rank() < (#[trigger] declared@[j]).rank(),
    {
        let mut declared: Vec<MinimizedDimension> = Vec::new();
        if self.value.is_some() {
            declared.push(MinimizedDimension::Value);
        }
        if self.owner.is_some() {
            declared.push(MinimizedDimension::Owner);
        }
        if self.fault.is_some() {
            declared.push(MinimizedDimension::Fault);
        }
        proof {
            assert forall|d: MinimizedDimension| declared@.contains(d) <==> (#[trigger] self.declared_for(d)) is Some by {
                if self.declared_for(d) is Some {
                    match d {
                        MinimizedDimension::Value => assert(declared@[0] == d),
                        MinimizedDimension::Owner => assert(declared@[declared@.len() - 1 - (if self.fault.is_some() { 1int } else { 0 })] == d),
                        MinimizedDimension::Fault => assert(declared@[declared@.len() - 1] == d),
                    }
                }
            }
        }
        declared
    }

    /// Whether nothing was declared.
    pub fn is_empty(&self) -> (empty: bool)
        ensures
            empty == forall|d: MinimizedDimension| #[trigger] self.declared_for(d) is None,
    {
        let empty = self.value.is_none() && self.owner.is_none() && self.fault.is_none();
        proof {
            if !empty {
                if self.value.is_some() {
                    assert(self.declared_for(MinimizedDimension::Value) is Some);
                } else if self.owner.is_some() {
                    assert(self.declared_for(MinimizedDimension::Owner) is Some);
                } else {
                    assert(self.declared_for(MinimizedDimension::Fault) is Some);
                }
            }
        }
        empty
    }
}

/// Every non-empty subset of `core` with at most `limit` members.
pub open spec fn bounded_subsets(core: Set<Seq<char>>, limit: nat) -> Set<Set<Seq<char>>> {
    Set::new(|u: Set<Seq<char>>| u.finite() && u.subset_of(core) && 1 <= u.len() <= limit)
}

/// Each member of `sets` with fewer than `limit` members, grown by `x`.
pub open spec fn grown(sets: Set<Set<Seq<char>>>, x: Seq<char>, limit: nat) -> Set<Set<Seq<char>>> {
    Set::new(|u: Set<Seq<char>>| exists|s: Set<Seq<char>>| #[trigger] sets.contains(s) && s.len() < limit && u == s.insert(x))
}

/// The bounded subsets of a set grown by a new member are those of the set, those grown by
/// the new member, and the new member alone.
proof fn lemma_bounded_subsets_insert(core: Set<Seq<char>>, x: Seq<char>, limit: nat)
    requires
        core.finite(),
        !core.contains(x),
        limit >= 1,
    ensures
        bounded_subsets(core.insert(x), limit)
            == bounded_subsets(core, limit).union(grown(bounded_subsets(core, limit), x, limit)).insert(set![x]),
{
    let s0 = bounded_subsets(core, limit);
    let lhs = bounded_subsets(core.insert(x), limit);
    let rhs = s0.union(grown(s0, x, limit)).insert(set![x]);
    assert forall|u: Set<Seq<char>>| lhs.contains(u) <==> rhs.contains(u) by {
        if lhs.contains(u) {
            if !u.contains(x) {
                assert(u.subset_of(core));
                assert(s0.contains(u));
            } else {
                let s = u.remove(x);
                assert(s.len() == u.len() - 1);
                assert(s.subset_of(core));
                if s.len() == 0 {
                    s.lemma_len0_is_empty();
                    assert(u =~= set![x]);
                } else {
                    assert(s0.contains(s));
                    assert(u =~= s.insert(x));
                    assert(grown(s0, x, limit).contains(u));
                }
            }
        }
        if rhs.contains(u) {
            if u == set![x] {
                assert(set![x].len() == 1) by {
                    assert(Set::<Seq<char>>::empty().insert(x).len() == 1);
                }
            } else if s0.contains(u) {
            } else {
                let s = choose|s: Set<Seq<char>>| #[trigger] s0.contains(s) && s.len() < limit && u == s.insert(x);
                assert(!s.contains(x));
                assert(u.len() == s.len() + 1);
            }
        }
    }
    assert(lhs =~= rhs);
}

/// The sets a family holds at its first `j` members.
pub open spec fn sets_before(family: Seq<Seq<Seq<char>>>, j: int) -> Set<Set<Seq<char>>> {
    crate::name::sets_of(family.subrange(0, j))
}

impl SearchBound {
    /// Every non-empty subset of `core` with at most `max_removed` members.
    pub fn subsets_of(self, core: &NameSet) -> (family: NameFamily)
        ensures
            family.sets() == bounded_subsets(core.contents(), self.limit()),
    {
        let limit = self.max_removed();
        let members = core.members();
        let n = members.len();
        let mut current = NameFamily::new();
        let mut i: usize = 0;
        proof {
            assert(core.listing().subrange(0, 0).to_set() =~= Set::<Seq<char>>::empty());
            assert forall|u: Set<Seq<char>>| !#[trigger] bounded_subsets(Set::<Seq<char>>::empty(), limit as nat).contains(u) by {
                if u.finite() && u.subset_of(Set::<Seq<char>>::empty()) {
                    assert(u =~= Set::<Seq<char>>::empty());
                }
            }
            assert(bounded_subsets(Set::<Seq<char>>::empty(), limit as nat) =~= Set::<Set<Seq<char>>>::empty());
        }
        while i < n
            invariant
                n == members@.len(),
                spelled(members@) == core.listing(),
                core.listing().no_duplicates(),
                limit == self.limit(),
                limit >= 1,
                i <= n,
                current.sets() == bounded_subsets(core.listing().subrange(0, i as int).to_set(), limit as nat),
            decreases n - i,
        {
            let ghost prefix = core.listing().subrange(0, i as int).to_set();
            let ghost x = core.listing()[i as int];
            proof { assert(x == members@[i as int]@); }
            let next = grow(&current, &members[i], limit);
            proof {
                let before = core.listing().subrange(0, i as int);
                assert(core.listing().subrange(0, i + 1) =~= before.push(x));
                lemma_push_to_set(before, x);
                assert(!prefix.contains(x)) by {
                    if prefix.contains(x) {
                        let k = choose|k: int| 0 <= k < before.len() && before[k] == x;
                        assert(core.listing()[k] == core.listing()[i as int]);
                    }
                }
                lemma_bounded_subsets_insert(prefix, x, limit as nat);
            }
            current = next;
            i = i + 1;
        }
        proof {
            assert(core.listing().subrange(0, n as int) =~= core.listing());
        }
        current
    }
}

/// Each member of `current`, each one with fewer than `limit` members grown by `x`, and `x`
/// alone.
fn grow(current: &NameFamily, x: &Name, limit: usize) -> (next: NameFamily)
    ensures
        next.sets() == current.sets().union(grown(current.sets(), x@, limit as nat)).insert(set![x@]),
{
    let sets = current.members();
    let ghost listings = current.listings();
    let mut next = NameFamily::new();
    let mut j: usize = 0;
    proof {
        assert(sets_before(listings, 0) =~= Set::<Set<Seq<char>>>::empty());
        assert(grown(Set::<Set<Seq<char>>>::empty(), x@, limit as nat) =~= Set::<Set<Seq<char>>>::empty());
    }
    while j < sets.len()
        invariant
            listings == current.listings(),
            sets@.map_values(|m: NameSet| m.listing()) == listings,
            forall|q: int| 0 <= q < listings.len() ==> crate::name::strictly_ascending(#[trigger] listings[q]),
            j <= sets@.len(),
            next.sets() == sets_before(listings, j as int).union(grown(sets_before(listings, j as int), x@, limit as nat)),
        decreases sets@.len() - j,
    {
        let s = &sets[j];
        let ghost u = s.contents();
        proof {
            assert(listings[j as int] == s.listing());
        }
        let small = s.len() < limit;
        let _canonical = s.members();
        next.insert(s.clone());
        if small {
            let mut t = s.clone();
            t.insert(x.clone());
            next.insert(t);
        }
        proof {
            let before = sets_before(listings, j as int);
            let after = sets_before(listings, j + 1);
            lemma_sets_before_push(listings, j as int);
            assert(u.len() == s.listing().len());
            let g_before = grown(before, x@, limit as nat);
            let g_after = grown(after, x@, limit as nat);
            if small {
                assert(g_after =~= g_before.insert(u.insert(x@))) by {
                    assert forall|w: Set<Seq<char>>| g_after.contains(w) <==> g_before.insert(u.insert(x@)).contains(w) by {
                        if g_after.contains(w) {
                            let v = choose|v: Set<Seq<char>>| #[trigger] after.contains(v) && v.len() < limit && w == v.insert(x@);
                            if v != u {
                                assert(before.contains(v));
                            }
                        }
                        if g_before.contains(w) {
                            let v = choose|v: Set<Seq<char>>| #[trigger] before.contains(v) && v.len() < limit && w == v.insert(x@);
                            assert(after.contains(v));
                        }
                        if w == u.insert(x@) {
                            assert(after.contains(u));
                        }
                    }
                }
            } else {
                assert(g_after =~= g_before) by {
                    assert forall|w: Set<Seq<char>>| g_after.contains(w) <==> g_before.contains(w) by {
                        if g_after.contains(w) {
                            let v = choose|v: Set<Seq<char>>| #[trigger] after.contains(v) && v.len() < limit && w == v.insert(x@);
                            if v != u {
                                assert(before.contains(v));
                            }
                        }
                        if g_before.contains(w) {
                            let v = choose|v: Set<Seq<char>>| #[trigger] before.contains(v) && v.len() < limit && w == v.insert(x@);
                            assert(after.contains(v));
                        }
                    }
                }
            }
        }
        j = j + 1;
    }
    let mut single = NameSet::new();
    single.insert(x.clone());
    proof {
        assert(single.contents() =~= set![x@]);
        assert(listings.subrange(0, j as int) =~= listings);
    }
    next.insert(single);
    next
}


/// The members of `core` no other member of `core` has as an immediate predecessor.
pub open spec fn maximal_in(graph: Graph, core: Set<Seq<char>>) -> Set<Seq<char>> {
    core.filter(|x: Seq<char>| !exists|y: Seq<char>| core.contains(y) && graph.dom().contains(y) && #[trigger] graph[y].contains(x))
}

/// Each member of `members` alone.
pub open spec fn singletons(members: Set<Seq<char>>) -> Set<Set<Seq<char>>> {
    members.map(|x: Seq<char>| set![x])
}

/// What a class's removal family over the canonical listing `core` is, or why there is none.
pub open spec fn family_answer(
    class: MinimalityClass,
    graph: Graph,
    core: Seq<Seq<char>>,
    dimensions: DimensionSet,
    bound: Option<SearchBound>,
    answer: Result<Set<Set<Seq<char>>>, MinimalityRefusal>,
) -> bool {
    let members = core.to_set();
    if core.len() == 0 {
        answer matches Err(MinimalityRefusal::EmptyCore)
    } else {
        match class {
            MinimalityClass::OneMinimal => answer == Ok::<Set<Set<Seq<char>>>, MinimalityRefusal>(singletons(members)),
            MinimalityClass::CardinalityMinimal => match bound {
                None => answer matches Err(MinimalityRefusal::UnboundedSearch),
                Some(b) => answer == Ok::<Set<Set<Seq<char>>>, MinimalityRefusal>(bounded_subsets(members, b.limit())),
            },
            MinimalityClass::CausallyMinimal => answer
                == Ok::<Set<Set<Seq<char>>>, MinimalityRefusal>(singletons(maximal_in(graph, members))),
            _ => {
                let d = class.dimension_of().unwrap();
                match dimensions.declared_for(d) {
                    None => (answer matches Err(MinimalityRefusal::DimensionNotDeclared { dimension }) && dimension == d),
                    Some(attribution) => if members.subset_of(attribution.dom()) {
                        answer == Ok::<Set<Set<Seq<char>>>, MinimalityRefusal>(units_over(attribution, members))
                    } else {
                        (answer matches Err(MinimalityRefusal::UndeclaredAttribution { dimension, id })
                            && dimension == d && first_unattributed(core, attribution, id@))
                    },
                }
            },
        }
    }
}

/// The sets a family's answer holds, or the refusal it carries.
pub open spec fn answer_of(family: Result<NameFamily, MinimalityRefusal>) -> Result<Set<Set<Seq<char>>>, MinimalityRefusal> {
    match family {
        Ok(f) => Ok(f.sets()),
        Err(e) => Err(e),
    }
}

/// The maximal elements of `core` under `order`: those no other core member has as an
/// immediate predecessor.
fn maximal_elements(order: &CausalOrder, core: &NameSet) -> (maximal: NameSet)
    ensures
        maximal.contents() == maximal_in(order.graph(), core.contents()),
{
    let members = core.members();
    let n = members.len();
    let ghost whole = core.contents();
    let ghost graph = order.graph();
    let mut maximal = NameSet::new();
    let mut i: usize = 0;
    while i < n
        invariant
            n == members@.len(),
            spelled(members@) == core.listing(),
            whole == core.contents(),
            graph == order.graph(),
            i <= n,
            maximal.contents() == maximal_in(graph, whole).intersect(core.listing().subrange(0, i as int).to_set()),
        decreases n - i,
    {
        let x = &members[i];
        proof { assert(core.listing()[i as int] == x@); }
        let mut covered = false;
        let mut j: usize = 0;
        while j < n
            invariant
                n == members@.len(),
                spelled(members@) == core.listing(),
                whole == core.contents(),
                graph == order.graph(),
                j <= n,
                covered == exists|k: int| 0 <= k < j && graph.dom().contains(core.listing()[k])
                    && #[trigger] graph[core.listing()[k]].contains(x@),
            decreases n - j,
        {
            proof { assert(core.listing()[j as int] == members@[j as int]@); }
            match order.immediate_predecessors(&members[j]) {
                Some(predecessors) => {
                    if predecessors.contains(x) {
                        covered = true;
                    }
                },
                None => {},
            }
            j = j + 1;
        }
        let ghost before = core.listing().subrange(0, i as int);
        proof {
            assert(core.listing().subrange(0, i + 1) =~= before.push(x@));
            lemma_push_to_set(before, x@);
            let is_maximal = maximal_in(graph, whole).contains(x@);
            assert(is_maximal == !covered) by {
                if covered {
                    let k = choose|k: int| 0 <= k < n && graph.dom().contains(core.listing()[k])
                        && #[trigger] graph[core.listing()[k]].contains(x@);
                    assert(whole.contains(core.listing()[k]));
                }
                if !is_maximal {
                    assert(whole.contains(x@)) by {
                        assert(core.listing()[i as int] == x@);
                    }
                    let y = choose|y: Seq<char>| whole.contains(y) && graph.dom().contains(y) && #[trigger] graph[y].contains(x@);
                    let k = choose|k: int| 0 <= k < core.listing().len() && core.listing()[k] == y;
                    assert(graph[core.listing()[k]].contains(x@));
                }
            }
        }
        if !covered {
            maximal.insert(x.clone());
        }
        proof {
            let m = maximal_in(graph, whole);
            if !covered {
                assert(m.intersect(before.to_set().insert(x@)) =~= m.intersect(before.to_set()).insert(x@));
            } else {
                assert(m.intersect(before.to_set().insert(x@)) =~= m.intersect(before.to_set()));
            }
        }
        i = i + 1;
    }
    proof {
        assert(core.listing().subrange(0, n as int) =~= core.listing());
        assert(maximal_in(graph, whole).intersect(whole) =~= maximal_in(graph, whole));
    }
    maximal
}

/// Each member of `members` alone, as a family.
fn singletons_of(members: &NameSet) -> (family: NameFamily)
    ensures
        family.sets() == singletons(members.contents()),
{
    let listed = members.members();
    let n = listed.len();
    let ghost f = |x: Seq<char>| set![x];
    let mut family = NameFamily::new();
    let mut i: usize = 0;
    while i < n
        invariant
            n == listed@.len(),
            spelled(listed@) == members.listing(),
            f == (|x: Seq<char>| set![x]),
            i <= n,
            family.sets() == members.listing().subrange(0, i as int).to_set().map(f),
        decreases n - i,
    {
        let ghost x = members.listing()[i as int];
        proof { assert(x == listed@[i as int]@); }
        let mut single = NameSet::new();
        single.insert(listed[i].clone());
        proof { assert(single.contents() =~= set![x]); }
        family.insert(single);
        proof {
            let before = members.listing().subrange(0, i as int);
            assert(members.listing().subrange(0, i + 1) =~= before.push(x));
            lemma_push_to_set(before, x);
            lemma_map_insert(before.to_set(), x, f);
        }
        i = i + 1;
    }
    proof {
        assert(members.listing().subrange(0, n as int) =~= members.listing());
    }
    family
}


impl MinimalityClass {
    /// The removals this class's transcript must examine, over `core`: each member alone;
    /// every non-empty subset within the declared bound; each maximal member alone; or one
    /// unit per element of the class's dimension.
    pub fn removal_family(
        self,
        order: &CausalOrder,
        core: &NameSet,
        dimensions: &DimensionSet,
        bound: Option<SearchBound>,
    ) -> (family: Result<NameFamily, MinimalityRefusal>)
        ensures
            family_answer(self, order.graph(), core.listing(), *dimensions, bound, answer_of(family)),
    {
        if core.is_empty() {
            return Err(MinimalityRefusal::EmptyCore);
        }
        match self {
            MinimalityClass::OneMinimal => Ok(singletons_of(core)),
            MinimalityClass::CardinalityMinimal => match bound {
                None => Err(MinimalityRefusal::UnboundedSearch),
                Some(b) => Ok(b.subsets_of(core)),
            },
            MinimalityClass::CausallyMinimal => {
                let maximal = maximal_elements(order, core);
                Ok(singletons_of(&maximal))
            },
            _ => {
                let dimension = match self.dimension() {
                    Some(d) => d,
                    None => {
                        proof { assert(false); }
                        MinimizedDimension::Value
                    },
                };
                match dimensions.attribution(dimension) {
                    None => Err(MinimalityRefusal::DimensionNotDeclared { dimension }),
                    Some(attribution) => attribution.units(core),
                }
            },
        }
    }
}


/// Whether distinct positions of a listing of removals hold distinct sets.
pub open spec fn distinct_sets(removed: Seq<Seq<Seq<char>>>) -> bool {
    forall|i: int, j: int| 0 <= i < removed.len() && 0 <= j < removed.len() && i != j
        ==> #[trigger] removed[i].to_set() != #[trigger] removed[j].to_set()
}

/// The outcome recorded for each removed set, from parallel listings of removals and outcomes.
pub open spec fn outcomes_by_set(removed: Seq<Seq<Seq<char>>>, outcomes: Seq<WitnessOutcome>) -> Map<Set<Seq<char>>, WitnessOutcome> {
    Map::new(
        |u: Set<Seq<char>>| exists|i: int| 0 <= i < removed.len() && #[trigger] removed[i].to_set() == u,
        |u: Set<Seq<char>>| outcomes[choose|i: int| 0 <= i < removed.len() && #[trigger] removed[i].to_set() == u],
    )
}

/// The outcomes a list of `(removed, outcome)` steps records: the outcome given last for each
/// removed set.
pub open spec fn recorded(entries: Seq<(Set<Seq<char>>, WitnessOutcome)>) -> Map<Set<Seq<char>>, WitnessOutcome>
    decreases entries.len(),
{
    if entries.len() == 0 {
        Map::empty()
    } else {
        recorded(entries.drop_last()).insert(entries.last().0, entries.last().1)
    }
}

/// The removed sets and outcomes a list of steps names.
pub open spec fn step_entries(steps: Seq<(NameSet, WitnessOutcome)>) -> Seq<(Set<Seq<char>>, WitnessOutcome)> {
    steps.map_values(|s: (NameSet, WitnessOutcome)| (s.0.contents(), s.1))
}

/// The listings of a family in canonical order name distinct sets.
proof fn lemma_family_distinct(listings: Seq<Seq<Seq<char>>>)
    requires
        forall|i: int, j: int| 0 <= i < j < listings.len()
            ==> listing_precedes(#[trigger] listings[i], #[trigger] listings[j]),
        forall|i: int| 0 <= i < listings.len() ==> strictly_ascending(#[trigger] listings[i]),
    ensures
        distinct_sets(listings),
{
    assert forall|i: int, j: int| 0 <= i < listings.len() && 0 <= j < listings.len() && i != j
        implies #[trigger] listings[i].to_set() != #[trigger] listings[j].to_set() by {
        if listings[i].to_set() == listings[j].to_set() {
            assert(strictly_ascending(listings[i]));
            assert(strictly_ascending(listings[j]));
            lemma_ascending_unique(listings[i], listings[j]);
            lemma_listing_order(listings[i], listings[j], listings[i]);
            if i < j {
                assert(listing_precedes(listings[i], listings[j]));
            } else {
                assert(listing_precedes(listings[j], listings[i]));
            }
        }
    }
}

/// With distinct sets, each position's set is recorded with the outcome beside it.
proof fn lemma_outcome_at(removed: Seq<Seq<Seq<char>>>, outcomes: Seq<WitnessOutcome>, i: int)
    requires
        distinct_sets(removed),
        0 <= i < removed.len(),
    ensures
        outcomes_by_set(removed, outcomes).dom().contains(removed[i].to_set()),
        outcomes_by_set(removed, outcomes)[removed[i].to_set()] == outcomes[i],
{
    let u = removed[i].to_set();
    assert(0 <= i < removed.len() && removed[i].to_set() == u);
    let j = choose|j: int| 0 <= j < removed.len() && #[trigger] removed[j].to_set() == u;
    assert(removed[j].to_set() == u);
}

/// The sets recorded are the sets the listing holds.
proof fn lemma_outcomes_dom(removed: Seq<Seq<Seq<char>>>, outcomes: Seq<WitnessOutcome>)
    ensures
        outcomes_by_set(removed, outcomes).dom() == crate::name::sets_of(removed),
{
    let mapped = removed.map_values(|l: Seq<Seq<char>>| l.to_set());
    assert forall|u: Set<Seq<char>>| outcomes_by_set(removed, outcomes).dom().contains(u)
        <==> crate::name::sets_of(removed).contains(u) by {
        if outcomes_by_set(removed, outcomes).dom().contains(u) {
            let i = choose|i: int| 0 <= i < removed.len() && #[trigger] removed[i].to_set() == u;
            assert(mapped[i] == u);
        }
        if crate::name::sets_of(removed).contains(u) {
            let i = choose|i: int| 0 <= i < mapped.len() && mapped[i] == u;
            assert(removed[i].to_set() == u);
        }
    }
    assert(outcomes_by_set(removed, outcomes).dom() =~= crate::name::sets_of(removed));
}

/// Placing one step keeps the recorded outcomes as they were, but for the placed set, which
/// now carries the new outcome.
proof fn lemma_record_step(
    old_l: Seq<Seq<Seq<char>>>,
    old_o: Seq<WitnessOutcome>,
    new_l: Seq<Seq<Seq<char>>>,
    new_o: Seq<WitnessOutcome>,
    at: int,
    added: bool,
    outcome: WitnessOutcome,
)
    requires
        distinct_sets(old_l),
        distinct_sets(new_l),
        old_o.len() == old_l.len(),
        0 <= at < new_l.len(),
        at <= old_l.len(),
        added ==> new_l == old_l.insert(at, new_l[at]) && new_o == old_o.insert(at, outcome),
        !added ==> new_l == old_l && new_o == old_o.update(at, outcome),
    ensures
        outcomes_by_set(new_l, new_o) == outcomes_by_set(old_l, old_o).insert(new_l[at].to_set(), outcome),
{
    let u = new_l[at].to_set();
    let lhs = outcomes_by_set(new_l, new_o);
    let rhs = outcomes_by_set(old_l, old_o).insert(u, outcome);
    lemma_outcome_at(new_l, new_o, at);
    assert forall|w: Set<Seq<char>>| lhs.dom().contains(w) <==> rhs.dom().contains(w) by {
        if lhs.dom().contains(w) && w != u {
            let k = choose|k: int| 0 <= k < new_l.len() && #[trigger] new_l[k].to_set() == w;
            let m = if added && k > at { k - 1 } else { k };
            assert(old_l[m] == new_l[k]);
            lemma_outcome_at(old_l, old_o, m);
        }
        if outcomes_by_set(old_l, old_o).dom().contains(w) {
            let m = choose|m: int| 0 <= m < old_l.len() && #[trigger] old_l[m].to_set() == w;
            let k = if added && m >= at { m + 1 } else { m };
            assert(new_l[k] == old_l[m]);
            lemma_outcome_at(new_l, new_o, k);
        }
    }
    assert forall|w: Set<Seq<char>>| #[trigger] lhs.dom().contains(w) implies lhs[w] == rhs[w] by {
        let k = choose|k: int| 0 <= k < new_l.len() && #[trigger] new_l[k].to_set() == w;
        lemma_outcome_at(new_l, new_o, k);
        if k != at {
            assert(w != u);
            let m = if added && k > at { k - 1 } else { k };
            assert(old_l[m] == new_l[k]);
            assert(new_o[k] == old_o[m]);
            lemma_outcome_at(old_l, old_o, m);
        }
    }
    assert(lhs =~= rhs);
}

/// One class's evidence: the core, the declared bound where the class takes one, and what
/// happened to the witness under every removal that was examined.
#[derive(Debug, PartialEq, Eq)]
pub struct MinimalityTranscript {
    class: MinimalityClass,
    core: NameSet,
    bound: Option<SearchBound>,
    removed: NameFamily,
    outcomes: Vec<WitnessOutcome>,
}

impl MinimalityTranscript {
    #[verifier::type_invariant]
    spec fn aligned(self) -> bool {
        self.outcomes@.len() == self.removed.listings().len()
    }

    /// The class this transcript is evidence for.
    pub closed spec fn recorded_class(&self) -> MinimalityClass {
        self.class
    }

    /// The selected set the claim is about, in canonical order.
    pub closed spec fn core_listing(&self) -> Seq<Seq<char>> {
        self.core.listing()
    }

    /// The selected set the claim is about.
    pub open spec fn core_set(&self) -> Set<Seq<char>> {
        self.core_listing().to_set()
    }

    /// The declared search bound.
    pub closed spec fn declared_bound(&self) -> Option<SearchBound> {
        self.bound
    }

    /// Each examined removal, in the canonical order of sets, with its recorded outcome.
    pub closed spec fn step_list(&self) -> Seq<(Seq<Seq<char>>, WitnessOutcome)> {
        Seq::new(self.outcomes@.len(), |i: int| (self.removed.listings()[i], self.outcomes@[i]))
    }

    /// The outcome recorded for each examined removal.
    pub closed spec fn steps_view(&self) -> Map<Set<Seq<char>>, WitnessOutcome> {
        outcomes_by_set(self.removed.listings(), self.outcomes@)
    }

    fn facts(&self)
        ensures
            self.outcomes@.len() == self.removed.listings().len(),
            distinct_sets(self.removed.listings()),
            self.steps_view().dom() == crate::name::sets_of(self.removed.listings()),
            self.step_list().len() == self.removed.listings().len(),
            forall|i: int| 0 <= i < self.step_list().len() ==> (#[trigger] self.step_list()[i]).0 == self.removed.listings()[i]
                && self.step_list()[i].1 == self.outcomes@[i],
            forall|i: int| 0 <= i < self.step_list().len() ==> strictly_ascending(#[trigger] self.step_list()[i].0),
            forall|i: int| 0 <= i < self.step_list().len() ==> self.steps_view().dom().contains(#[trigger] self.step_list()[i].0.to_set())
                && self.steps_view()[self.step_list()[i].0.to_set()] == self.step_list()[i].1,
            self.steps_view().dom().len() == self.step_list().len(),
    {
        proof { use_type_invariant(self); }
        let _canonical = self.removed.members();
        proof {
            let listings = self.removed.listings();
            lemma_family_distinct(listings);
            lemma_outcomes_dom(listings, self.outcomes@);
            assert forall|i: int| 0 <= i < self.step_list().len() implies self.steps_view().dom().contains(#[trigger] self.step_list()[i].0.to_set())
                && self.steps_view()[self.step_list()[i].0.to_set()] == self.step_list()[i].1 by {
                lemma_outcome_at(listings, self.outcomes@, i);
            }
            let mapped = listings.map_values(|l: Seq<Seq<char>>| l.to_set());
            assert(mapped.no_duplicates()) by {
                assert forall|i: int, j: int| 0 <= i < mapped.len() && 0 <= j < mapped.len() && i != j
                    implies mapped[i] != mapped[j] by {
                    assert(listings[i].to_set() != listings[j].to_set());
                }
            }
            mapped.unique_seq_to_set();
        }
    }

    /// Record a transcript for `class` over `core`; a removal given twice carries the outcome
    /// given last.
    pub fn new(
        class: MinimalityClass,
        core: Vec<Name>,
        bound: Option<SearchBound>,
        steps: Vec<(NameSet, WitnessOutcome)>,
    ) -> (transcript: MinimalityTranscript)
        ensures
            transcript.recorded_class() == class,
            transcript.core_set() == spelled(core@).to_set(),
            transcript.declared_bound() == bound,
            transcript.steps_view() == recorded(step_entries(steps@)),
    {
        let core = NameSet::of(core);
        let ghost all = step_entries(steps@);
        let n = steps.len();
        let mut rest = steps;
        let mut removed = NameFamily::new();
        let mut outcomes: Vec<WitnessOutcome> = Vec::new();
        let mut i: usize = 0;
        proof {
            assert(outcomes_by_set(removed.listings(), outcomes@) =~= Map::<Set<Seq<char>>, WitnessOutcome>::empty());
        }
        while rest.len() > 0
            invariant
                n == all.len(),
                i + rest@.len() == n,
                step_entries(rest@) == all.subrange(i as int, n as int),
                outcomes@.len() == removed.listings().len(),
                outcomes_by_set(removed.listings(), outcomes@) == recorded(all.subrange(0, i as int)),
            decreases rest@.len(),
        {
            let ghost before_rest = rest@;
            let (set, outcome) = rest.remove(0);
            let ghost old_l = removed.listings();
            let ghost old_o = outcomes@;
            let ghost u = set.contents();
            proof {
                assert(step_entries(before_rest)[0] == (u, outcome));
                assert(all[i as int] == step_entries(before_rest)[0]);
                assert(step_entries(rest@) =~= step_entries(before_rest).subrange(1, before_rest.len() as int));
                assert(all.subrange(0, i + 1).drop_last() =~= all.subrange(0, i as int));
            }
            let _old_canonical = removed.members();
            proof { lemma_family_distinct(old_l); }
            let (at, added) = removed.place(set);
            if added {
                outcomes.insert(at, outcome);
            } else {
                outcomes.set(at, outcome);
            }
            let _new_canonical = removed.members();
            proof {
                lemma_family_distinct(removed.listings());
                assert(removed.listings()[at as int].to_set() == u);
                lemma_record_step(old_l, old_o, removed.listings(), outcomes@, at as int, added, outcome);
            }
            i = i + 1;
        }
        proof {
            assert(all.subrange(0, n as int) =~= all);
        }
        MinimalityTranscript { class, core, bound, removed, outcomes }
    }

    /// The class this transcript is evidence for, and the only class it can license.
    pub fn class(&self) -> (class: MinimalityClass)
        ensures
            class == self.recorded_class(),
    {
        self.class
    }

    /// The selected set the claim is about.
    pub fn selected(&self) -> (selected: &NameSet)
        ensures
            selected.listing() == self.core_listing(),
    {
        &self.core
    }

    /// The declared search bound, where the class takes one.
    pub fn bound(&self) -> (bound: Option<SearchBound>)
        ensures
            bound == self.declared_bound(),
    {
        self.bound
    }

    /// Every examined removal and its recorded outcome, in the canonical order of sets.
    pub fn steps(&self) -> (steps: Vec<(NameSet, WitnessOutcome)>)
        ensures
            steps@.len() == self.step_list().len(),
            steps@.len() == self.steps_view().dom().len(),
            forall|i: int| 0 <= i < steps@.len() ==> (#[trigger] steps@[i]).0.listing() == self.step_list()[i].0
                && steps@[i].1 == self.step_list()[i].1,
            forall|i: int| 0 <= i < steps@.len() ==> self.steps_view().dom().contains((#[trigger] steps@[i]).0.contents())
                && self.steps_view()[steps@[i].0.contents()] == steps@[i].1,
    {
        self.facts();
        let members = self.removed.members();
        let n = members.len();
        let mut steps: Vec<(NameSet, WitnessOutcome)> = Vec::new();
        let mut i: usize = 0;
        while i < n
            invariant
                n == members@.len(),
                members@.map_values(|m: NameSet| m.listing()) == self.removed.listings(),
                self.outcomes@.len() == n,
                i <= n,
                steps@.len() == i,
                forall|q: int| 0 <= q < i ==> (#[trigger] steps@[q]).0.listing() == self.removed.listings()[q]
                    && steps@[q].1 == self.outcomes@[q],
            decreases n - i,
        {
            proof { assert(members@.map_values(|m: NameSet| m.listing())[i as int] == members@[i as int].listing()); }
            steps.push((members[i].clone(), self.outcomes[i]));
            i = i + 1;
        }
        steps
    }

    /// The removals this transcript examined.
    pub fn examined(&self) -> (examined: NameFamily)
        ensures
            examined.sets() == self.steps_view().dom(),
    {
        self.facts();
        self.removed.clone()
    }

    /// What this transcript recorded for one removal, where it examined it.
    pub fn outcome(&self, removed: &NameSet) -> (outcome: Option<WitnessOutcome>)
        ensures
            outcome is Some <==> self.steps_view().dom().contains(removed.contents()),
            outcome matches Some(o) ==> o == self.steps_view()[removed.contents()],
    {
        self.facts();
        let members = self.removed.members();
        let n = members.len();
        let ghost listings = self.removed.listings();
        let mut i: usize = 0;
        while i < n
            invariant
                n == members@.len(),
                listings == self.removed.listings(),
                members@.map_values(|m: NameSet| m.listing()) == listings,
                self.outcomes@.len() == n,
                i <= n,
                distinct_sets(listings),
                forall|q: int| 0 <= q < i ==> #[trigger] listings[q].to_set() != removed.contents(),
            decreases n - i,
        {
            proof { assert(listings[i as int] == members@[i as int].listing()); }
            if members[i].same_set(removed) {
                proof { lemma_outcome_at(listings, self.outcomes@, i as int); }
                return Some(self.outcomes[i]);
            }
            i = i + 1;
        }
        proof {
            if self.steps_view().dom().contains(removed.contents()) {
                let k = choose|k: int| 0 <= k < listings.len() && #[trigger] listings[k].to_set() == removed.contents();
                assert(listings[k].to_set() != removed.contents());
            }
        }
        None
    }

    /// How many removals were examined.
    pub fn len(&self) -> (count: usize)
        ensures
            count == self.steps_view().dom().len(),
    {
        self.facts();
        self.outcomes.len()
    }

    /// Whether nothing was examined at all.
    pub fn is_empty(&self) -> (empty: bool)
        ensures
            empty == (self.steps_view().dom().len() == 0),
    {
        self.facts();
        self.outcomes.len() == 0
    }
}

impl Clone for MinimalityTranscript {
    fn clone(&self) -> (copy: MinimalityTranscript)
        ensures
            copy.recorded_class() == self.recorded_class(),
            copy.core_listing() == self.core_listing(),
            copy.declared_bound() == self.declared_bound(),
            copy.step_list() == self.step_list(),
            copy.steps_view() == self.steps_view(),
    {
        proof { use_type_invariant(self); }
        let copy = MinimalityTranscript {
            class: self.class,
            core: self.core.clone(),
            bound: self.bound,
            removed: self.removed.clone(),
            outcomes: self.outcomes.clone(),
        };
        proof {
            assert(copy.step_list() =~= self.step_list());
        }
        copy
    }
}


/// The canonical JSON strings of a listing of identifiers.
pub open spec fn name_strings(listing: Seq<Seq<char>>) -> Seq<Seq<char>> {
    listing.map_values(|n: Seq<char>| json_string(n))
}

/// The canonical JSON text of one examined removal: `outcome`, then `removed`.
pub open spec fn step_json(removed: Seq<Seq<char>>, outcome: WitnessOutcome) -> Seq<char> {
    "{\"outcome\":"@ + json_string(outcome.token()) + ",\"removed\":"@ + json_array(name_strings(removed)) + "}"@
}

/// The canonical JSON texts of a listing of examined removals.
pub open spec fn steps_json(steps: Seq<(Seq<Seq<char>>, WitnessOutcome)>) -> Seq<Seq<char>> {
    steps.map_values(|s: (Seq<Seq<char>>, WitnessOutcome)| step_json(s.0, s.1))
}

/// The canonical JSON text of a transcript: `bound` when one is declared, `class`, `core` and
/// `steps`, in that key order.
pub open spec fn transcript_json(
    bound: Option<SearchBound>,
    class: MinimalityClass,
    core: Seq<Seq<char>>,
    steps: Seq<(Seq<Seq<char>>, WitnessOutcome)>,
) -> Seq<char> {
    "{"@ + (match bound {
        Some(b) => "\"bound\":"@ + decimal(b.limit()) + ","@,
        None => Seq::empty(),
    }) + "\"class\":"@ + json_string(class.token()) + ",\"core\":"@ + json_array(name_strings(core))
        + ",\"steps\":"@ + json_array(steps_json(steps)) + "}"@
}

/// Append the canonical JSON array of a set's members.
fn write_names(out: &mut String, names: &NameSet)
    ensures
        final(out)@ == old(out)@ + json_array(name_strings(names.listing())),
{
    let members = names.members();
    let ghost start = out@;
    write_raw(out, "[");
    proof {
        reveal_strlit("[");
        assert(name_strings(names.listing()).subrange(0, 0) =~= Seq::<Seq<char>>::empty());
        assert(out@ =~= start + seq!['['] + joined(Seq::<Seq<char>>::empty()));
    }
    let n = members.len();
    let mut i: usize = 0;
    while i < n
        invariant
            n == members@.len(),
            spelled(members@) == names.listing(),
            i <= n,
            out@ == start + seq!['['] + joined(name_strings(names.listing()).subrange(0, i as int)),
        decreases n - i,
    {
        let ghost before = name_strings(names.listing()).subrange(0, i as int);
        write_separator(out, i);
        let ghost middle = out@;
        write_string(out, members[i].as_str());
        proof {
            let rendered = json_string(names.listing()[i as int]);
            assert(names.listing()[i as int] == members@[i as int]@);
            assert(out@ == middle + rendered);
            assert(name_strings(names.listing()).subrange(0, i + 1) =~= before.push(rendered));
            lemma_joined_push(before, rendered);
        }
        i = i + 1;
    }
    write_raw(out, "]");
    proof {
        reveal_strlit("]");
        assert(name_strings(names.listing()).subrange(0, n as int) =~= name_strings(names.listing()));
        assert(out@ =~= start + json_array(name_strings(names.listing())));
    }
}

/// Append the canonical JSON text of one examined removal.
fn write_step(out: &mut String, removed: &NameSet, outcome: WitnessOutcome)
    ensures
        final(out)@ == old(out)@ + step_json(removed.listing(), outcome),
{
    let ghost start = out@;
    write_raw(out, "{\"outcome\":");
    write_string(out, outcome.as_str());
    write_raw(out, ",\"removed\":");
    write_names(out, removed);
    write_raw(out, "}");
    proof {
        assert(out@ =~= start + step_json(removed.listing(), outcome));
    }
}

impl MinimalityTranscript {
    /// The auditable rendering: `{bound?, class, core, steps}` in canonical JSON.
    pub fn to_json(&self) -> (text: String)
        ensures
            text@ == transcript_json(self.declared_bound(), self.recorded_class(), self.core_listing(), self.step_list()),
    {
        self.facts();
        let mut out = String::new();
        write_raw(&mut out, "{");
        let ghost opening = out@;
        match self.bound {
            Some(b) => {
                write_raw(&mut out, "\"bound\":");
                let limit = b.max_removed();
                write_decimal(&mut out, limit as u64);
                write_raw(&mut out, ",");
            },
            None => {},
        }
        proof {
            assert(out@ =~= "{"@ + match self.bound {
                Some(b) => "\"bound\":"@ + decimal(b.limit()) + ","@,
                None => Seq::<char>::empty(),
            });
        }
        let ghost head = out@;
        write_raw(&mut out, "\"class\":");
        write_string(&mut out, self.class.as_str());
        write_raw(&mut out, ",\"core\":");
        write_names(&mut out, &self.core);
        write_raw(&mut out, ",\"steps\":");
        let ghost before_steps = out@;
        let members = self.removed.members();
        let ghost items = steps_json(self.step_list());
        write_raw(&mut out, "[");
        proof {
            reveal_strlit("[");
            assert(items.subrange(0, 0) =~= Seq::<Seq<char>>::empty());
            assert(out@ =~= before_steps + seq!['['] + joined(Seq::<Seq<char>>::empty()));
        }
        let n = members.len();
        let mut i: usize = 0;
        while i < n
            invariant
                n == members@.len(),
                members@.map_values(|m: NameSet| m.listing()) == self.removed.listings(),
                self.outcomes@.len() == n,
                self.step_list().len() == n,
                forall|q: int| 0 <= q < self.step_list().len() ==> (#[trigger] self.step_list()[q]).0 == self.removed.listings()[q]
                    && self.step_list()[q].1 == self.outcomes@[q],
                items == steps_json(self.step_list()),
                i <= n,
                out@ == before_steps + seq!['['] + joined(items.subrange(0, i as int)),
            decreases n - i,
        {
            let ghost before = items.subrange(0, i as int);
            write_separator(&mut out, i);
            let ghost middle = out@;
            write_step(&mut out, &members[i], self.outcomes[i]);
            proof {
                assert(members@.map_values(|m: NameSet| m.listing())[i as int] == members@[i as int].listing());
                let rendered = step_json(self.step_list()[i as int].0, self.step_list()[i as int].1);
                assert(out@ == middle + rendered);
                assert(items.subrange(0, i + 1) =~= before.push(rendered));
                lemma_joined_push(before, rendered);
            }
            i = i + 1;
        }
        write_raw(&mut out, "]");
        write_raw(&mut out, "}");
        proof {
            reveal_strlit("]");
            assert(items.subrange(0, n as int) =~= items);
            assert(out@ =~= transcript_json(self.declared_bound(), self.recorded_class(), self.core_listing(), self.step_list()));
        }
        out
    }
}


impl MinimalityClass {
    /// The member's position in declaration order, as an index.
    fn index(self) -> (index: usize)
        ensures
            index == self.rank(),
            index < 6,
    {
        match self {
            MinimalityClass::OneMinimal => 0,
            MinimalityClass::CardinalityMinimal => 1,
            MinimalityClass::CausallyMinimal => 2,
            MinimalityClass::ValueMinimal => 3,
            MinimalityClass::OwnerMinimal => 4,
            MinimalityClass::FaultMinimal => 5,
        }
    }

    /// The member at `index` in declaration order.
    fn at(index: usize) -> (class: MinimalityClass)
        requires
            index < 6,
        ensures
            class.rank() == index,
            class == MinimalityClass::ALL@[index as int],
    {
        match index {
            0 => MinimalityClass::OneMinimal,
            1 => MinimalityClass::CardinalityMinimal,
            2 => MinimalityClass::CausallyMinimal,
            3 => MinimalityClass::ValueMinimal,
            4 => MinimalityClass::OwnerMinimal,
            _ => MinimalityClass::FaultMinimal,
        }
    }
}

/// Members are equal when their positions are.
proof fn lemma_rank_injective(a: MinimalityClass, b: MinimalityClass)
    ensures
        a.rank() == b.rank() ==> a == b,
{
}

/// The classes among the first `k` in declaration order whose slot is occupied, in that order.
pub open spec fn occupied_upto<T>(slots: Seq<Option<T>>, k: int) -> Seq<MinimalityClass>
    decreases k,
{
    if k <= 0 {
        Seq::empty()
    } else if slots[k - 1] is Some {
        occupied_upto(slots, k - 1).push(MinimalityClass::ALL@[k - 1])
    } else {
        occupied_upto(slots, k - 1)
    }
}

/// The occupied classes among the first `k` are exactly those whose slot is occupied, in
/// increasing rank.
proof fn lemma_occupied_upto<T>(slots: Seq<Option<T>>, k: int)
    requires
        0 <= k <= 6,
        slots.len() == 6,
    ensures
        forall|c: MinimalityClass| occupied_upto(slots, k).contains(c) <==> (c.rank() < k && #[trigger] slots[c.rank()] is Some),
        forall|i: int, j: int| 0 <= i < j < occupied_upto(slots, k).len()
            ==> (#[trigger] occupied_upto(slots, k)[i]).rank() < (#[trigger] occupied_upto(slots, k)[j]).rank(),
        forall|i: int| 0 <= i < occupied_upto(slots, k).len() ==> (#[trigger] occupied_upto(slots, k)[i]).rank() < k,
        occupied_upto(slots, k).len() <= k,
    decreases k,
{
    if k > 0 {
        lemma_occupied_upto(slots, k - 1);
        let before = occupied_upto(slots, k - 1);
        let c = MinimalityClass::ALL@[k - 1];
        MinimalityClass::lemma_all_lists(c);
        assert(c.rank() == k - 1) by {
            assert(MinimalityClass::ALL@[0].rank() == 0);
            assert(MinimalityClass::ALL@[1].rank() == 1);
            assert(MinimalityClass::ALL@[2].rank() == 2);
            assert(MinimalityClass::ALL@[3].rank() == 3);
            assert(MinimalityClass::ALL@[4].rank() == 4);
            assert(MinimalityClass::ALL@[5].rank() == 5);
        }
        assert forall|d: MinimalityClass| occupied_upto(slots, k).contains(d) <==> (d.rank() < k && #[trigger] slots[d.rank()] is Some) by {
            if slots[k - 1] is Some {
                let now = before.push(c);
                if now.contains(d) {
                    let i = choose|i: int| 0 <= i < now.len() && now[i] == d;
                    if i < before.len() {
                        assert(before[i] == d);
                        assert(before.contains(d));
                    }
                }
                if d.rank() < k && slots[d.rank()] is Some {
                    if d.rank() == k - 1 {
                        lemma_rank_injective(c, d);
                        assert(now[before.len() as int] == d);
                    } else {
                        let i = choose|i: int| 0 <= i < before.len() && before[i] == d;
                        assert(now[i] == d);
                    }
                }
            } else {
                if d.rank() == k - 1 {
                    assert(!(slots[d.rank()] is Some));
                }
            }
        }
    }
}

/// One empty slot per class.
fn empty_slots() -> (slots: Vec<Option<MinimalityTranscript>>)
    ensures
        slots@.len() == 6,
        forall|k: int| 0 <= k < 6 ==> (#[trigger] slots@[k]) is None,
{
    let mut slots: Vec<Option<MinimalityTranscript>> = Vec::new();
    let mut k: usize = 0;
    while k < 6
        invariant
            k <= 6,
            slots@.len() == k,
            forall|q: int| 0 <= q < k ==> (#[trigger] slots@[q]) is None,
        decreases 6 - k,
    {
        slots.push(None);
        k = k + 1;
    }
    slots
}

/// The transcripts a minimizer produced, at most one per class, each filed under its own
/// class.
#[derive(Debug, PartialEq, Eq)]
pub struct MinimizerArtifact {
    slots: Vec<Option<MinimalityTranscript>>,
}

/// The transcript filed last under `class` in a list of filings.
pub open spec fn last_filed(
    filings: Seq<(MinimalityClass, MinimalityTranscript)>,
    class: MinimalityClass,
) -> Option<MinimalityTranscript>
    decreases filings.len(),
{
    if filings.len() == 0 {
        None
    } else if filings.last().0 == class {
        Some(filings.last().1)
    } else {
        last_filed(filings.drop_last(), class)
    }
}

/// Whether the `i`th filing is the first filed under a class other than its transcript's own.
pub open spec fn first_misfiling(filings: Seq<(MinimalityClass, MinimalityTranscript)>, i: int) -> bool {
    &&& 0 <= i < filings.len()
    &&& filings[i].0 != filings[i].1.recorded_class()
    &&& forall|j: int| 0 <= j < i ==> (#[trigger] filings[j]).0 == filings[j].1.recorded_class()
}

impl MinimizerArtifact {
    #[verifier::type_invariant]
    spec fn one_slot_per_class(self) -> bool {
        &&& self.slots@.len() == 6
        &&& forall|k: int| 0 <= k < 6 ==> (#[trigger] self.slots@[k] matches Some(t) ==> t.recorded_class().rank() == k)
    }

    /// The transcript filed under `class`, where there is one.
    pub closed spec fn filed(&self, class: MinimalityClass) -> Option<MinimalityTranscript> {
        self.slots@[class.rank()]
    }

    /// The classes this artifact claims, in declaration order.
    pub closed spec fn claimed(&self) -> Seq<MinimalityClass> {
        occupied_upto(self.slots@, 6)
    }

    fn facts(&self)
        ensures
            forall|c: MinimalityClass| self.claimed().contains(c) <==> (#[trigger] self.filed(c)) is Some,
            forall|i: int, j: int| 0 <= i < j < self.claimed().len()
                ==> (#[trigger] self.claimed()[i]).rank() < (#[trigger] self.claimed()[j]).rank(),
            forall|c: MinimalityClass| (#[trigger] self.filed(c)) is Some ==> self.filed(c).unwrap().recorded_class() == c,
            self.slots@.len() == 6,
    {
        proof {
            use_type_invariant(self);
            lemma_occupied_upto(self.slots@, 6);
            assert forall|c: MinimalityClass| self.claimed().contains(c) <==> (#[trigger] self.filed(c)) is Some by {
                MinimalityClass::lemma_all_lists(c);
            }
            assert forall|c: MinimalityClass| (#[trigger] self.filed(c)) is Some implies self.filed(c).unwrap().recorded_class() == c by {
                MinimalityClass::lemma_all_lists(c);
                assert(self.slots@[c.rank()] matches Some(t) ==> t.recorded_class().rank() == c.rank());
                lemma_rank_injective(self.filed(c).unwrap().recorded_class(), c);
            }
        }
    }

    /// No solver artifact.
    pub fn none() -> (artifact: MinimizerArtifact)
        ensures
            forall|c: MinimalityClass| #[trigger] artifact.filed(c) is None,
    {
        let artifact = MinimizerArtifact { slots: empty_slots() };
        proof {
            assert forall|c: MinimalityClass| #[trigger] artifact.filed(c) is None by {
                MinimalityClass::lemma_all_lists(c);
            }
        }
        artifact
    }

    /// Carry these transcripts, each filed under its own class; a later transcript for one
    /// class replaces an earlier one. Refused at the first transcript filed under a class that
    /// is not its own.
    pub fn of(filings: Vec<(MinimalityClass, MinimalityTranscript)>) -> (artifact: Result<MinimizerArtifact, MinimalityError>)
        ensures
            artifact is Ok <==> forall|i: int| 0 <= i < filings@.len() ==> (#[trigger] filings@[i]).0 == filings@[i].1.recorded_class(),
            artifact matches Ok(a) ==> forall|c: MinimalityClass| #[trigger] a.filed(c) == last_filed(filings@, c),
            artifact matches Err(MinimalityError::ClassMismatch { filed, recorded }) ==> exists|i: int| #[trigger] first_misfiling(filings@, i)
                && filings@[i].0 == filed && filings@[i].1.recorded_class() == recorded,
    {
        let n = filings.len();
        let mut i: usize = 0;
        while i < n
            invariant
                n == filings@.len(),
                i <= n,
                forall|j: int| 0 <= j < i ==> (#[trigger] filings@[j]).0 == filings@[j].1.recorded_class(),
            decreases n - i,
        {
            let recorded = filings[i].1.class();
            if recorded != filings[i].0 {
                proof {
                    assert(first_misfiling(filings@, i as int));
                    assert(!(forall|j: int| 0 <= j < filings@.len() ==> (#[trigger] filings@[j]).0 == filings@[j].1.recorded_class())) by {
                        assert(filings@[i as int].0 != filings@[i as int].1.recorded_class());
                    }
                }
                return Err(MinimalityError::ClassMismatch { filed: filings[i].0, recorded });
            }
            i = i + 1;
        }
        let ghost all = filings@;
        let mut rest = filings;
        let mut slots = empty_slots();
        let mut i: usize = 0;
        while rest.len() > 0
            invariant
                n == all.len(),
                i + rest@.len() == n,
                rest@ == all.subrange(i as int, n as int),
                forall|j: int| 0 <= j < n ==> (#[trigger] all[j]).0 == all[j].1.recorded_class(),
                slots@.len() == 6,
                forall|k: int| 0 <= k < 6 ==> (#[trigger] slots@[k] matches Some(t) ==> t.recorded_class().rank() == k),
                forall|c: MinimalityClass| #[trigger] slots@[c.rank()] == last_filed(all.subrange(0, i as int), c),
            decreases rest@.len(),
        {
            let ghost before_rest = rest@;
            let (class, transcript) = rest.remove(0);
            proof {
                assert(all[i as int] == before_rest[0]);
                assert(rest@ =~= all.subrange(i + 1, n as int));
                assert(all[i as int].0 == all[i as int].1.recorded_class());
            }
            let ghost old_slots = slots@;
            let ghost entry = (class, transcript);
            let k = class.index();
            slots.set(k, Some(transcript));
            proof {
                let grown_prefix = all.subrange(0, i + 1);
                assert(grown_prefix.drop_last() =~= all.subrange(0, i as int));
                assert(grown_prefix.last() == entry);
                assert forall|c: MinimalityClass| #[trigger] slots@[c.rank()] == last_filed(grown_prefix, c) by {
                    MinimalityClass::lemma_all_lists(c);
                    if c != class {
                        lemma_rank_injective(c, class);
                        assert(slots@[c.rank()] == old_slots[c.rank()]);
                    }
                }
            }
            i = i + 1;
        }
        proof {
            assert(all.subrange(0, n as int) =~= all);
        }
        Ok(MinimizerArtifact { slots })
    }

    /// The transcript for one class, where the artifact carries one.
    pub fn transcript(&self, class: MinimalityClass) -> (transcript: Option<&MinimalityTranscript>)
        ensures
            transcript is Some <==> self.filed(class) is Some,
            transcript matches Some(t) ==> self.filed(class) == Some(*t) && t.recorded_class() == class,
    {
        self.facts();
        self.slots[class.index()].as_ref()
    }

    /// The classes this artifact claims, in declaration order.
    pub fn classes(&self) -> (classes: Vec<MinimalityClass>)
        ensures
            classes@ == self.claimed(),
            forall|c: MinimalityClass| classes@.contains(c) <==> (#[trigger] self.filed(c)) is Some,
            forall|i: int, j: int| 0 <= i < j < classes@.len() ==> (#[trigger] classes@[i]).rank() < (#[trigger] classes@[j]).rank(),
    {
        self.facts();
        let mut classes: Vec<MinimalityClass> = Vec::new();
        let mut k: usize = 0;
        while k < 6
            invariant
                self.slots@.len() == 6,
                k <= 6,
                classes@ == occupied_upto(self.slots@, k as int),
            decreases 6 - k,
        {
            if self.slots[k].is_some() {
                classes.push(MinimalityClass::at(k));
            }
            k = k + 1;
        }
        classes
    }

    /// How many transcripts it carries.
    pub fn len(&self) -> (count: usize)
        ensures
            count == self.claimed().len(),
    {
        self.classes().len()
    }

    /// Whether no solver artifact exists for this compile.
    pub fn is_empty(&self) -> (empty: bool)
        ensures
            empty == forall|c: MinimalityClass| #[trigger] self.filed(c) is None,
    {
        let classes = self.classes();
        proof {
            if classes@.len() > 0 {
                assert(classes@.contains(classes@[0]));
                assert(self.filed(classes@[0]) is Some);
            } else {
                assert forall|c: MinimalityClass| #[trigger] self.filed(c) is None by {
                    if self.filed(c) is Some {
                        assert(classes@.contains(c));
                    }
                }
            }
        }
        classes.len() == 0
    }
}

/// Stage 8's question: which classes to attempt, the attributions the dimension classes need,
/// and the bound a cardinality search declares.
#[derive(Debug, PartialEq, Eq)]
pub struct MinimalityQuestion {
    asked: Vec<bool>,
    dimensions: DimensionSet,
    bound: Option<SearchBound>,
}

impl MinimalityQuestion {
    #[verifier::type_invariant]
    spec fn one_flag_per_class(self) -> bool {
        self.asked@.len() == 6
    }

    /// Whether `class` is asked for.
    pub closed spec fn asks(&self, class: MinimalityClass) -> bool {
        self.asked@[class.rank()]
    }

    /// The classes asked for, in declaration order.
    pub closed spec fn asked_listing(&self) -> Seq<MinimalityClass> {
        occupied_upto(self.asked@.map_values(|b: bool| if b { Some(()) } else { None }), 6)
    }

    /// The declared dimension attributions.
    pub closed spec fn declared_dimensions(&self) -> DimensionSet {
        self.dimensions
    }

    /// The declared search bound.
    pub closed spec fn declared_bound(&self) -> Option<SearchBound> {
        self.bound
    }

    /// Ask for these classes, with no dimension declared and no bound.
    pub fn asking(classes: Vec<MinimalityClass>) -> (question: MinimalityQuestion)
        ensures
            forall|c: MinimalityClass| #[trigger] question.asks(c) == classes@.contains(c),
            forall|d: MinimizedDimension| #[trigger] question.declared_dimensions().declared_for(d) is None,
            question.declared_bound() is None,
    {
        let mut asked: Vec<bool> = Vec::new();
        let mut k: usize = 0;
        while k < 6
            invariant
                k <= 6,
                asked@.len() == k,
                forall|q: int| 0 <= q < k ==> !(#[trigger] asked@[q]),
            decreases 6 - k,
        {
            asked.push(false);
            k = k + 1;
        }
        let n = classes.len();
        let mut i: usize = 0;
        while i < n
            invariant
                n == classes@.len(),
                i <= n,
                asked@.len() == 6,
                forall|c: MinimalityClass| #[trigger] asked@[c.rank()] == classes@.subrange(0, i as int).contains(c),
            decreases n - i,
        {
            let class = classes[i];
            let ghost before = asked@;
            asked.set(class.index(), true);
            proof {
                let prefix = classes@.subrange(0, i as int);
                assert(classes@.subrange(0, i + 1) =~= prefix.push(class));
                assert forall|c: MinimalityClass| #[trigger] asked@[c.rank()] == classes@.subrange(0, i + 1).contains(c) by {
                    MinimalityClass::lemma_all_lists(c);
                    lemma_rank_injective(c, class);
                    if c != class {
                        assert(asked@[c.rank()] == before[c.rank()]);
                        if prefix.push(class).contains(c) {
                            let j = choose|j: int| 0 <= j < prefix.len() + 1 && prefix.push(class)[j] == c;
                            assert(prefix[j] == c);
                        }
                        if prefix.contains(c) {
                            let j = choose|j: int| 0 <= j < prefix.len() && prefix[j] == c;
                            assert(prefix.push(class)[j] == c);
                        }
                    } else {
                        assert(prefix.push(class)[prefix.len() as int] == c);
                    }
                }
            }
            i = i + 1;
        }
        proof {
            assert(classes@.subrange(0, n as int) =~= classes@);
        }
        MinimalityQuestion { asked, dimensions: DimensionSet::empty(), bound: None }
    }

    /// Ask with no class named.
    pub fn nothing_asked() -> (question: MinimalityQuestion)
        ensures
            forall|c: MinimalityClass| !(#[trigger] question.asks(c)),
            forall|d: MinimizedDimension| #[trigger] question.declared_dimensions().declared_for(d) is None,
            question.declared_bound() is None,
    {
        MinimalityQuestion::asking(Vec::new())
    }

    /// Declare the dimension attributions the dimension classes minimise along.
    pub fn with_dimensions(self, dimensions: DimensionSet) -> (question: MinimalityQuestion)
        ensures
            forall|c: MinimalityClass| #[trigger] question.asks(c) == self.asks(c),
            question.declared_dimensions() == dimensions,
            question.declared_bound() == self.declared_bound(),
    {
        proof { use_type_invariant(&self); }
        let MinimalityQuestion { asked, dimensions: _, bound } = self;
        MinimalityQuestion { asked, dimensions, bound }
    }

    /// Declare the exhaustive search's bound.
    pub fn with_bound(self, bound: SearchBound) -> (question: MinimalityQuestion)
        ensures
            forall|c: MinimalityClass| #[trigger] question.asks(c) == self.asks(c),
            question.declared_dimensions() == self.declared_dimensions(),
            question.declared_bound() == Some(bound),
    {
        proof { use_type_invariant(&self); }
        let MinimalityQuestion { asked, dimensions, bound: _ } = self;
        MinimalityQuestion { asked, dimensions, bound: Some(bound) }
    }

    /// The classes asked for, in declaration order.
    pub fn classes(&self) -> (classes: Vec<MinimalityClass>)
        ensures
            forall|c: MinimalityClass| classes@.contains(c) <==> #[trigger] self.asks(c),
            forall|i: int, j: int| 0 <= i < j < classes@.len() ==> (#[trigger] classes@[i]).rank() < (#[trigger] classes@[j]).rank(),
    {
        proof { use_type_invariant(self); }
        let ghost flags = self.asked@.map_values(|b: bool| if b { Some(()) } else { None });
        let mut classes: Vec<MinimalityClass> = Vec::new();
        let mut k: usize = 0;
        while k < 6
            invariant
                self.asked@.len() == 6,
                flags == self.asked@.map_values(|b: bool| if b { Some(()) } else { None }),
                k <= 6,
                classes@ == occupied_upto(flags, k as int),
            decreases 6 - k,
        {
            if self.asked[k] {
                classes.push(MinimalityClass::at(k));
            }
            k = k + 1;
        }
        proof {
            lemma_occupied_upto(flags, 6);
            assert forall|c: MinimalityClass| classes@.contains(c) <==> #[trigger] self.asks(c) by {
                MinimalityClass::lemma_all_lists(c);
                assert(flags[c.rank()] == (if self.asked@[c.rank()] { Some(()) } else { None }));
            }
        }
        classes
    }

    /// The declared dimension attributions.
    pub fn dimensions(&self) -> (dimensions: &DimensionSet)
        ensures
            *dimensions == self.declared_dimensions(),
    {
        &self.dimensions
    }

    /// The declared search bound, where one was declared.
    pub fn bound(&self) -> (bound: Option<SearchBound>)
        ensures
            bound == self.declared_bound(),
    {
        self.bound
    }

    /// Whether the question named no class at all.
    pub fn is_empty(&self) -> (empty: bool)
        ensures
            empty == forall|c: MinimalityClass| !(#[trigger] self.asks(c)),
    {
        let classes = self.classes();
        proof {
            if classes@.len() > 0 {
                assert(classes@.contains(classes@[0]));
                assert(self.asks(classes@[0]));
            } else {
                assert forall|c: MinimalityClass| !(#[trigger] self.asks(c)) by {
                    if self.asks(c) {
                        assert(classes@.contains(c));
                    }
                }
            }
        }
        classes.len() == 0
    }
}


/// The sets a family holds at its first `j + 1` members are those at its first `j`, and the
/// `j`th.
proof fn lemma_sets_before_push(listings: Seq<Seq<Seq<char>>>, j: int)
    requires
        0 <= j < listings.len(),
    ensures
        sets_before(listings, j + 1) == sets_before(listings, j).insert(listings[j].to_set()),
{
    let u = listings[j].to_set();
    let ls = listings.subrange(0, j);
    assert(listings.subrange(0, j + 1) =~= ls.push(listings[j]));
    let mapped = ls.map_values(|l: Seq<Seq<char>>| l.to_set());
    let mapped2 = ls.push(listings[j]).map_values(|l: Seq<Seq<char>>| l.to_set());
    assert(mapped2 =~= mapped.push(u));
    assert forall|y: Set<Seq<char>>| mapped2.to_set().contains(y) <==> mapped.to_set().insert(u).contains(y) by {
        if mapped2.contains(y) {
            let k = choose|k: int| 0 <= k < mapped2.len() && mapped2[k] == y;
            if k < mapped.len() {
                assert(mapped[k] == y);
            }
        }
        if mapped.contains(y) {
            let k = choose|k: int| 0 <= k < mapped.len() && mapped[k] == y;
            assert(mapped2[k] == y);
        }
        if y == u {
            assert(mapped2[mapped.len() as int] == y);
        }
    }
    assert(sets_before(listings, j + 1) =~= sets_before(listings, j).insert(u));
}

/// The members of `order` that `set` holds, in the order's own sequence.
pub open spec fn restricted(order: Seq<Seq<char>>, set: Set<Seq<char>>) -> Seq<Seq<char>>
    decreases order.len(),
{
    if order.len() == 0 {
        Seq::empty()
    } else if set.contains(order.last()) {
        restricted(order.drop_last(), set).push(order.last())
    } else {
        restricted(order.drop_last(), set)
    }
}

/// What `automaton` concludes over the members of `set`, run in the topological order of
/// `graph`.
pub open spec fn verdict_on(automaton: PropertyAutomaton, graph: Graph, set: Set<Seq<char>>) -> AutomatonVerdict {
    automaton.verdict_over(restricted(canonical_order(graph), set))
}

/// Whether `set` witnesses the failure: the automaton run over it ends in violation.
pub open spec fn witnesses(automaton: PropertyAutomaton, graph: Graph, set: Set<Seq<char>>) -> bool {
    verdict_on(automaton, graph, set) == AutomatonVerdict::Violated
}

/// What removing `removed` from `core` does to the witness.
pub open spec fn removal_outcome(
    automaton: PropertyAutomaton,
    graph: Graph,
    core: Set<Seq<char>>,
    removed: Set<Seq<char>>,
) -> WitnessOutcome {
    WitnessOutcome::from_verdict(verdict_on(automaton, graph, core.difference(removed)))
}

/// What a search over the canonical listing `core` transcribes, or why it refuses.
pub open spec fn transcribed(
    class: MinimalityClass,
    graph: Graph,
    automaton: PropertyAutomaton,
    core: Seq<Seq<char>>,
    dimensions: DimensionSet,
    bound: Option<SearchBound>,
    transcript: Result<MinimalityTranscript, MinimalityRefusal>,
) -> bool {
    let members = core.to_set();
    if core.len() == 0 {
        transcript matches Err(MinimalityRefusal::EmptyCore)
    } else if !witnesses(automaton, graph, members) {
        transcript matches Err(MinimalityRefusal::NoWitness)
    } else {
        match transcript {
            Ok(t) => {
                &&& family_answer(class, graph, core, dimensions, bound, Ok(t.steps_view().dom()))
                &&& t.recorded_class() == class
                &&& t.core_set() == members
                &&& t.declared_bound() == (if class == MinimalityClass::CardinalityMinimal { bound } else { None })
                &&& forall|u: Set<Seq<char>>| #[trigger] t.steps_view().dom().contains(u)
                    ==> t.steps_view()[u] == removal_outcome(automaton, graph, members, u)
            },
            Err(e) => family_answer(class, graph, core, dimensions, bound, Err(e)),
        }
    }
}

/// Run `automaton` over the members of `set`, in the sequence `topological` lists them.
fn run_over(automaton: &PropertyAutomaton, topological: &[Name], set: &NameSet) -> (verdict: AutomatonVerdict)
    ensures
        verdict == automaton.verdict_over(restricted(spelled(topological@), set.contents())),
{
    let ghost order = spelled(topological@);
    let mut trace: Vec<Name> = Vec::new();
    let mut i: usize = 0;
    while i < topological.len()
        invariant
            order == spelled(topological@),
            i <= topological@.len(),
            spelled(trace@) == restricted(order.subrange(0, i as int), set.contents()),
        decreases topological@.len() - i,
    {
        let ghost before = trace@;
        proof {
            let prefix = order.subrange(0, i + 1);
            assert(prefix.drop_last() =~= order.subrange(0, i as int));
            assert(prefix.last() == topological@[i as int]@);
        }
        if set.contains(&topological[i]) {
            trace.push(topological[i].clone());
            proof { assert(spelled(trace@) =~= spelled(before).push(topological@[i as int]@)); }
        }
        i = i + 1;
    }
    proof { assert(order.subrange(0, i as int) =~= order); }
    let run = automaton.run(trace.as_slice());
    run.verdict()
}

/// The members of `core` that `removed` does not hold.
fn without(core: &NameSet, removed: &NameSet) -> (remaining: NameSet)
    ensures
        remaining.contents() == core.contents().difference(removed.contents()),
{
    let members = core.members();
    let mut remaining = NameSet::new();
    let mut i: usize = 0;
    while i < members.len()
        invariant
            spelled(members@) == core.listing(),
            i <= members@.len(),
            remaining.contents() == core.listing().subrange(0, i as int).to_set().difference(removed.contents()),
        decreases members@.len() - i,
    {
        let ghost before = core.listing().subrange(0, i as int);
        let ghost x = core.listing()[i as int];
        proof {
            assert(x == members@[i as int]@);
            assert(core.listing().subrange(0, i + 1) =~= before.push(x));
            lemma_push_to_set(before, x);
        }
        if !removed.contains(&members[i]) {
            remaining.insert(members[i].clone());
            proof {
                assert(before.to_set().insert(x).difference(removed.contents())
                    =~= before.to_set().difference(removed.contents()).insert(x));
            }
        } else {
            proof {
                assert(before.to_set().insert(x).difference(removed.contents())
                    =~= before.to_set().difference(removed.contents()));
            }
        }
        i = i + 1;
    }
    proof { assert(core.listing().subrange(0, i as int) =~= core.listing()); }
    remaining
}

/// Stage 8's computation: run a class's removal family and record what each removal did.
#[derive(Debug, Clone, Copy, PartialEq, Eq, Structural)]
pub struct MinimalitySearch;

impl MinimalitySearch {
    /// Search `class`'s removal family over `core` and transcribe the result. Refused for an
    /// empty core, for a core that does not witness the failure, and wherever the class's
    /// removal family is refused.
    pub fn transcribe(
        class: MinimalityClass,
        order: &CausalOrder,
        automaton: &PropertyAutomaton,
        core: &NameSet,
        dimensions: &DimensionSet,
        bound: Option<SearchBound>,
    ) -> (transcript: Result<MinimalityTranscript, MinimalityRefusal>)
        ensures
            transcribed(class, order.graph(), *automaton, core.listing(), *dimensions, bound, transcript),
    {
        if core.is_empty() {
            return Err(MinimalityRefusal::EmptyCore);
        }
        let topological = order.topological_order();
        let ghost graph = order.graph();
        let ghost members = core.contents();
        let witness = run_over(automaton, topological.as_slice(), core);
        if witness != AutomatonVerdict::Violated {
            return Err(MinimalityRefusal::NoWitness);
        }
        let family = match class.removal_family(order, core, dimensions, bound) {
            Ok(family) => family,
            Err(refusal) => return Err(refusal),
        };
        let sets = family.members();
        let ghost listings = family.listings();
        let ghost target = |j: int| Map::new(
            |u: Set<Seq<char>>| sets_before(listings, j).contains(u),
            |u: Set<Seq<char>>| removal_outcome(*automaton, graph, members, u),
        );
        let n = sets.len();
        let mut steps: Vec<(NameSet, WitnessOutcome)> = Vec::new();
        let mut j: usize = 0;
        proof {
            assert(sets_before(listings, 0) =~= Set::<Set<Seq<char>>>::empty());
            assert(recorded(step_entries(steps@)) =~= target(0));
        }
        while j < n
            invariant
                n == sets@.len(),
                listings == family.listings(),
                sets@.map_values(|m: NameSet| m.listing()) == listings,
                spelled(topological@) == canonical_order(graph),
                graph == order.graph(),
                members == core.contents(),
                target == (|j: int| Map::new(
                    |u: Set<Seq<char>>| sets_before(listings, j).contains(u),
                    |u: Set<Seq<char>>| removal_outcome(*automaton, graph, members, u),
                )),
                j <= n,
                steps@.len() == j,
                recorded(step_entries(steps@)) == target(j as int),
            decreases n - j,
        {
            let removed = &sets[j];
            let ghost u = removed.contents();
            proof {
                assert(listings[j as int] == removed.listing());
            }
            let remaining = without(core, removed);
            let outcome = WitnessOutcome::of(run_over(automaton, topological.as_slice(), &remaining));
            let ghost before = steps@;
            steps.push((removed.clone(), outcome));
            proof {
                assert(outcome == removal_outcome(*automaton, graph, members, u));
                assert(step_entries(steps@) =~= step_entries(before).push((u, outcome)));
                let entries = step_entries(steps@);
                assert(entries.drop_last() =~= step_entries(before));
                lemma_sets_before_push(listings, j as int);
                assert(recorded(entries) =~= target(j + 1));
            }
            j = j + 1;
        }
        let mut core_names: Vec<Name> = Vec::new();
        let listed = core.members();
        let mut i: usize = 0;
        while i < listed.len()
            invariant
                i <= listed@.len(),
                spelled(core_names@) == spelled(listed@).subrange(0, i as int),
            decreases listed@.len() - i,
        {
            let ghost before = core_names@;
            core_names.push(listed[i].clone());
            proof {
                assert(spelled(core_names@) =~= spelled(before).push(listed@[i as int]@));
                assert(spelled(listed@).subrange(0, i + 1) =~= spelled(listed@).subrange(0, i as int).push(listed@[i as int]@));
            }
            i = i + 1;
        }
        proof {
            assert(spelled(listed@).subrange(0, i as int) =~= spelled(listed@));
        }
        let recorded_bound = if class.takes_bound() { bound } else { None };
        let transcript = MinimalityTranscript::new(class, core_names, recorded_bound, steps);
        proof {
            assert(listings.subrange(0, n as int) =~= listings);
            assert(transcript.steps_view().dom() =~= family.sets());
        }
        Ok(transcript)
    }
}


impl MinimalityRefusal {
    /// The refusal's human-readable explanation.
    pub open spec fn explanation(&self) -> Seq<char> {
        match self {
            MinimalityRefusal::NoProperty =>
                "this compile ran no property automaton, so nothing here decides whether a reduced set still witnesses the failure"@,
            MinimalityRefusal::NothingAsked => "this question names no minimality class to attempt"@,
            MinimalityRefusal::EmptyCore => "a minimality claim about an empty selection is vacuous"@,
            MinimalityRefusal::NoWitness =>
                "the selection does not witness the failure, so no removal can destroy a witness it does not carry"@,
            MinimalityRefusal::UnboundedSearch =>
                "`cardinality-minimal` needs a declared search bound; an unbounded search cannot claim it"@,
            MinimalityRefusal::DimensionNotDeclared { dimension } =>
                "no `"@ + dimension.token() + "` attribution was declared, so there is no `"@ + dimension.token()
                    + "` domain to reduce along"@,
            MinimalityRefusal::UndeclaredAttribution { dimension, id } =>
                "`"@ + id@ + "` carries no declared `"@ + dimension.token()
                    + "`; a class cannot be minimised along a dimension a selected item was never described in"@,
        }
    }

    /// The refusal's human-readable explanation.
    pub fn message(&self) -> (text: String)
        ensures
            text@ == self.explanation(),
    {
        let mut out = String::new();
        match self {
            MinimalityRefusal::NoProperty => write_raw(&mut out,
                "this compile ran no property automaton, so nothing here decides whether a reduced set still witnesses the failure"),
            MinimalityRefusal::NothingAsked => write_raw(&mut out, "this question names no minimality class to attempt"),
            MinimalityRefusal::EmptyCore => write_raw(&mut out, "a minimality claim about an empty selection is vacuous"),
            MinimalityRefusal::NoWitness => write_raw(&mut out,
                "the selection does not witness the failure, so no removal can destroy a witness it does not carry"),
            MinimalityRefusal::UnboundedSearch => write_raw(&mut out,
                "`cardinality-minimal` needs a declared search bound; an unbounded search cannot claim it"),
            MinimalityRefusal::DimensionNotDeclared { dimension } => {
                write_raw(&mut out, "no `");
                write_raw(&mut out, dimension.as_str());
                write_raw(&mut out, "` attribution was declared, so there is no `");
                write_raw(&mut out, dimension.as_str());
                write_raw(&mut out, "` domain to reduce along");
            },
            MinimalityRefusal::UndeclaredAttribution { dimension, id } => {
                write_raw(&mut out, "`");
                write_raw(&mut out, id.as_str());
                write_raw(&mut out, "` carries no declared `");
                write_raw(&mut out, dimension.as_str());
                write_raw(&mut out, "`; a class cannot be minimised along a dimension a selected item was never described in");
            },
        }
        proof {
            assert(out@ =~= self.explanation());
        }
        out
    }
}

impl MinimalityError {
    /// The error's human-readable explanation.
    pub open spec fn explanation(&self) -> Seq<char> {
        match self {
            MinimalityError::ClassMismatch { filed, recorded } =>
                "a transcript recording `"@ + recorded.token() + "` is filed under `"@ + filed.token()
                    + "`; a minimality class is licensed only by its own transcript"@,
        }
    }

    /// The error's human-readable explanation.
    pub fn message(&self) -> (text: String)
        ensures
            text@ == self.explanation(),
    {
        let mut out = String::new();
        match self {
            MinimalityError::ClassMismatch { filed, recorded } => {
                write_raw(&mut out, "a transcript recording `");
                write_raw(&mut out, recorded.as_str());
                write_raw(&mut out, "` is filed under `");
                write_raw(&mut out, filed.as_str());
                write_raw(&mut out, "`; a minimality class is licensed only by its own transcript");
            },
        }
        proof {
            assert(out@ =~= self.explanation());
        }
        out
    }
}


/// Removing a maximal element from a causally closed selection leaves a causally closed
/// selection: why the causal class removes exactly the maximal elements.
pub proof fn law_removing_a_maximal_element_keeps_closure(graph: Graph, core: Set<Seq<char>>, x: Seq<char>)
    requires
        downward_closed(graph, core),
        maximal_in(graph, core).contains(x),
    ensures
        downward_closed(graph, core.remove(x)),
{
    assert forall|e: Seq<char>, p: Seq<char>|
        core.remove(x).contains(e) && graph.dom().contains(e) && #[trigger] graph[e].contains(p)
        implies core.remove(x).contains(p) by {
        assert(core.contains(p));
        if p == x {
            assert(core.contains(e) && graph.dom().contains(e) && graph[e].contains(x));
        }
    }
}

/// A search bounded at one removal examines exactly the single removals: the cardinality
/// family at bound one is the one-at-a-time family.
pub proof fn law_bound_one_is_one_at_a_time(core: Set<Seq<char>>)
    requires
        core.finite(),
    ensures
        bounded_subsets(core, 1) == singletons(core),
{
    assert forall|u: Set<Seq<char>>| bounded_subsets(core, 1).contains(u) <==> singletons(core).contains(u) by {
        if bounded_subsets(core, 1).contains(u) {
            let x = u.choose();
            assert(u.contains(x)) by {
                if !u.contains(x) {
                    u.lemma_len0_is_empty();
                }
            }
            assert(u.remove(x).len() == 0);
            u.remove(x).lemma_len0_is_empty();
            assert(u =~= set![x]) by {
                assert forall|y: Seq<char>| u.contains(y) implies y == x by {
                    if y != x {
                        assert(u.remove(x).contains(y));
                    }
                }
            }
            assert(core.contains(x));
        }
        if singletons(core).contains(u) {
            let x = choose|x: Seq<char>| core.contains(x) && u == set![x];
            assert(set![x].len() == 1) by {
                assert(Set::<Seq<char>>::empty().insert(x).len() == 1);
            }
            assert(u.subset_of(core));
        }
    }
    assert(bounded_subsets(core, 1) =~= singletons(core));
}

/// An attribution that gives each core member its own element induces the one-at-a-time
/// family.
pub proof fn law_distinct_elements_are_one_at_a_time(attribution: Map<Seq<char>, Seq<char>>, core: Set<Seq<char>>)
    requires
        core.subset_of(attribution.dom()),
        forall|x: Seq<char>, y: Seq<char>| core.contains(x) && core.contains(y) && #[trigger] attribution[x] == #[trigger] attribution[y] ==> x == y,
    ensures
        units_over(attribution, core) == singletons(core),
{
    assert forall|x: Seq<char>| core.contains(x) implies #[trigger] unit_of(attribution, core, x) == set![x] by {
        assert(unit_of(attribution, core, x) =~= set![x]);
    }
    assert forall|u: Set<Seq<char>>| units_over(attribution, core).contains(u) <==> singletons(core).contains(u) by {
        if units_over(attribution, core).contains(u) {
            let x = choose|x: Seq<char>| core.contains(x) && u == unit_of(attribution, core, x);
            assert(u == set![x]);
        }
        if singletons(core).contains(u) {
            let x = choose|x: Seq<char>| core.contains(x) && u == set![x];
            assert(unit_of(attribution, core, x) == set![x]);
        }
    }
    assert(units_over(attribution, core) =~= singletons(core));
}

/// A removal family is a function of the premise: two answers for one class, order, core,
/// attributions and bound agree.
pub proof fn law_removal_family_is_determined(
    class: MinimalityClass,
    graph: Graph,
    core: Seq<Seq<char>>,
    dimensions: DimensionSet,
    bound: Option<SearchBound>,
    a: Set<Set<Seq<char>>>,
    b: Set<Set<Seq<char>>>,
)
    requires
        family_answer(class, graph, core, dimensions, bound, Ok(a)),
        family_answer(class, graph, core, dimensions, bound, Ok(b)),
    ensures
        a == b,
{
}

/// Two searches over one premise agree: the same class, core, bound and the same outcome for
/// every removal.
pub proof fn law_search_is_deterministic(
    class: MinimalityClass,
    graph: Graph,
    automaton: PropertyAutomaton,
    core: Seq<Seq<char>>,
    dimensions: DimensionSet,
    bound: Option<SearchBound>,
    first: MinimalityTranscript,
    second: MinimalityTranscript,
)
    requires
        transcribed(class, graph, automaton, core, dimensions, bound, Ok(first)),
        transcribed(class, graph, automaton, core, dimensions, bound, Ok(second)),
    ensures
        first.recorded_class() == second.recorded_class(),
        first.core_set() == second.core_set(),
        first.declared_bound() == second.declared_bound(),
        first.steps_view() == second.steps_view(),
{
    law_removal_family_is_determined(class, graph, core, dimensions, bound, first.steps_view().dom(), second.steps_view().dom());
    assert(first.steps_view() =~= second.steps_view());
}

} // verus!
