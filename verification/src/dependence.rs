//! Stage 4: the join of the untrusted source correspondence with the trusted execution
//! record, and why a `source` or `model` candidate is or is not admissible.

use vstd::prelude::*;

use crate::causal::{first_repeat, repeats_at};
use crate::json::write_raw;
use crate::name::{lemma_push_to_set, spelled, strictly_ascending, Name, NameMap, NameSet};
use crate::omission::OmissionReason;
use crate::selection::SelectionKind;

verus! {

/// Why a `source` or `model` candidate is not admissible.
#[derive(Debug, Clone, Copy, PartialEq, Eq, Hash, PartialOrd, Ord, Structural)]
pub enum Inadmissible {
    /// No correspondence claims the candidate at all.
    NoCorrespondence,
    /// Only the untrusted source correspondence claims the dependence.
    UncorroboratedSource,
    /// The dependence is corroborated, and no anchor carrying it is in the published core.
    AnchorNotSelected,
}

impl Inadmissible {
    /// Every member, in declaration order.
    pub const ALL: [Inadmissible; 3] = [
        Inadmissible::NoCorrespondence,
        Inadmissible::UncorroboratedSource,
        Inadmissible::AnchorNotSelected,
    ];

    /// The member's position in declaration order.
    pub open spec fn rank(self) -> int {
        match self {
            Inadmissible::NoCorrespondence => 0,
            Inadmissible::UncorroboratedSource => 1,
            Inadmissible::AnchorNotSelected => 2,
        }
    }

    /// `ALL` lists every member at its rank.
    pub proof fn lemma_all_lists(member: Inadmissible)
        ensures
            0 <= member.rank() < 3,
            Inadmissible::ALL@[member.rank()] == member,
    {
    }

    /// The member's stable token.
    pub open spec fn token(self) -> Seq<char> {
        match self {
            Inadmissible::NoCorrespondence => "no-correspondence"@,
            Inadmissible::UncorroboratedSource => "uncorroborated-source"@,
            Inadmissible::AnchorNotSelected => "anchor-not-selected"@,
        }
    }

    /// The member's stable token.
    pub fn as_str(self) -> (text: &'static str)
        ensures
            text@ == self.token(),
    {
        match self {
            Inadmissible::NoCorrespondence => "no-correspondence",
            Inadmissible::UncorroboratedSource => "uncorroborated-source",
            Inadmissible::AnchorNotSelected => "anchor-not-selected",
        }
    }

    /// The token's length and the characters that tell members' tokens apart.
    pub open spec fn signature(self) -> int {
        match self {
            Inadmissible::NoCorrespondence => 17,
            Inadmissible::UncorroboratedSource => 21,
            Inadmissible::AnchorNotSelected => 19,
        }
    }

    proof fn lemma_signature(member: Inadmissible)
        ensures
            member.token().len() == member.signature(),
    {
        match member {
            Inadmissible::NoCorrespondence => reveal_strlit("no-correspondence"),
            Inadmissible::UncorroboratedSource => reveal_strlit("uncorroborated-source"),
            Inadmissible::AnchorNotSelected => reveal_strlit("anchor-not-selected"),
        }
    }

    /// Distinct members have distinct tokens.
    pub proof fn lemma_token_injective(a: Inadmissible, b: Inadmissible)
        ensures
            a.token() == b.token() ==> a == b,
    {
        Inadmissible::lemma_signature(a);
        Inadmissible::lemma_signature(b);
    }

}

impl Inadmissible {
    /// The manifest reason a stage-4 decline is recorded under: always `heuristic-cutoff`,
    /// because an uncorroborated claim is undecided rather than disproved.
    pub fn omission_reason(self) -> (reason: OmissionReason)
        ensures
            reason == OmissionReason::HeuristicCutoff,
    {
        OmissionReason::HeuristicCutoff
    }
}


/// What a correspondence claim refers to: a source span or a model action, each by its
/// identifier.
#[derive(Debug, PartialEq, Eq)]
pub enum CorrespondenceRef {
    /// A source span.
    Source(Name),
    /// A model action.
    Model(Name),
}

impl View for CorrespondenceRef {
    type V = (SelectionKind, Seq<char>);

    open spec fn view(&self) -> (SelectionKind, Seq<char>) {
        match self {
            CorrespondenceRef::Source(id) => (SelectionKind::Source, id@),
            CorrespondenceRef::Model(id) => (SelectionKind::Model, id@),
        }
    }
}

impl Clone for CorrespondenceRef {
    fn clone(&self) -> (copy: CorrespondenceRef)
        ensures
            copy@ == self@,
    {
        match self {
            CorrespondenceRef::Source(id) => CorrespondenceRef::Source(id.clone()),
            CorrespondenceRef::Model(id) => CorrespondenceRef::Model(id.clone()),
        }
    }
}

impl CorrespondenceRef {
    /// The candidate kind the reference becomes.
    pub fn kind(&self) -> (kind: SelectionKind)
        ensures
            kind == self@.0,
    {
        match self {
            CorrespondenceRef::Source(_) => SelectionKind::Source,
            CorrespondenceRef::Model(_) => SelectionKind::Model,
        }
    }

    /// The identifier of what the reference names.
    pub fn referent(&self) -> (referent: &Name)
        ensures
            referent@ == self@.1,
    {
        match self {
            CorrespondenceRef::Source(id) => id,
            CorrespondenceRef::Model(id) => id,
        }
    }
}

/// One untrusted claim: a candidate corresponds to a reference, and depends on these anchors.
#[derive(Debug, PartialEq, Eq)]
pub struct CorrespondenceClaim {
    reference: CorrespondenceRef,
    anchors: NameSet,
}

impl Clone for CorrespondenceClaim {
    fn clone(&self) -> (copy: CorrespondenceClaim)
        ensures
            copy.referent_view() == self.referent_view(),
            copy.anchor_set() == self.anchor_set(),
    {
        CorrespondenceClaim { reference: self.reference.clone(), anchors: self.anchors.clone() }
    }
}

impl CorrespondenceClaim {
    /// What the claim refers to.
    pub closed spec fn referent_view(&self) -> (SelectionKind, Seq<char>) {
        self.reference@
    }

    /// The anchors the claim names.
    pub closed spec fn anchor_set(&self) -> Set<Seq<char>> {
        self.anchors.contents()
    }

    /// The anchors the claim names, in canonical order.
    pub closed spec fn anchor_listing(&self) -> Seq<Seq<char>> {
        self.anchors.listing()
    }

    /// A claim that `reference` depends on `anchors`.
    pub fn new(reference: CorrespondenceRef, anchors: Vec<Name>) -> (claim: CorrespondenceClaim)
        ensures
            claim.referent_view() == reference@,
            claim.anchor_set() == spelled(anchors@).to_set(),
    {
        CorrespondenceClaim { reference, anchors: NameSet::of(anchors) }
    }

    /// What the claim refers to.
    pub fn reference(&self) -> (reference: &CorrespondenceRef)
        ensures
            reference@ == self.referent_view(),
    {
        &self.reference
    }

    /// The anchors the claim names.
    pub fn anchors(&self) -> (anchors: &NameSet)
        ensures
            anchors.contents() == self.anchor_set(),
            anchors.listing() == self.anchor_listing(),
            self.anchor_set() == self.anchor_listing().to_set(),
    {
        &self.anchors
    }
}

/// A way a stage-4 input fails to be one.
#[derive(Debug, Clone, PartialEq, Eq)]
pub enum DependenceError {
    /// The correspondence claims one candidate twice.
    RepeatedClaim {
        /// The candidate claimed twice.
        id: Name,
    },
    /// A claim names no anchor.
    AnchorlessClaim {
        /// The candidate whose claim names no anchor.
        id: Name,
    },
    /// The execution record attests one candidate twice.
    RepeatedAttestation {
        /// The candidate attested twice.
        id: Name,
    },
}

impl DependenceError {
    /// The refusal's explanation.
    pub open spec fn explanation(&self) -> Seq<char> {
        match self {
            DependenceError::RepeatedClaim { id } => "the source correspondence claims `"@ + id@
                + "` twice; an ambiguity in untrusted input is refused, never resolved by picking one"@,
            DependenceError::AnchorlessClaim { id } => "the correspondence's claim about `"@ + id@
                + "` names no anchor, so it asserts no dependence and can be neither corroborated nor refuted"@,
            DependenceError::RepeatedAttestation { id } => "the execution record attests `"@ + id@ + "` twice"@,
        }
    }

    /// The refusal's explanation.
    pub fn message(&self) -> (text: String)
        ensures
            text@ == self.explanation(),
    {
        let mut out = String::new();
        match self {
            DependenceError::RepeatedClaim { id } => {
                write_raw(&mut out, "the source correspondence claims `");
                write_raw(&mut out, id.as_str());
                write_raw(&mut out, "` twice; an ambiguity in untrusted input is refused, never resolved by picking one");
            },
            DependenceError::AnchorlessClaim { id } => {
                write_raw(&mut out, "the correspondence's claim about `");
                write_raw(&mut out, id.as_str());
                write_raw(&mut out,
                    "` names no anchor, so it asserts no dependence and can be neither corroborated nor refuted");
            },
            DependenceError::RepeatedAttestation { id } => {
                write_raw(&mut out, "the execution record attests `");
                write_raw(&mut out, id.as_str());
                write_raw(&mut out, "` twice");
            },
        }
        proof {
            assert(out@ =~= self.explanation());
        }
        out
    }
}

/// The identifiers a list of `(candidate, value)` pairs names, in order.
pub open spec fn entry_ids<V>(entries: Seq<(Name, V)>) -> Seq<Seq<char>> {
    entries.map_values(|e: (Name, V)| e.0@)
}

/// Whether the `i`th claim is refused: it names no anchor, or its candidate was claimed
/// before.
pub open spec fn claim_fault(claims: Seq<(Name, CorrespondenceClaim)>, i: int) -> bool {
    claims[i].1.anchor_set() == Set::<Seq<char>>::empty() || repeats_at(entry_ids(claims), i)
}

/// The untrusted source correspondence: at most one claim per candidate.
#[derive(Debug, PartialEq, Eq)]
pub struct SourceCorrespondence {
    claims: NameMap<CorrespondenceClaim>,
}

impl View for SourceCorrespondence {
    type V = Map<Seq<char>, CorrespondenceClaim>;

    closed spec fn view(&self) -> Map<Seq<char>, CorrespondenceClaim> {
        self.claims@
    }
}

impl SourceCorrespondence {
    /// No correspondence at all.
    pub fn none() -> (correspondence: SourceCorrespondence)
        ensures
            correspondence@ == Map::<Seq<char>, CorrespondenceClaim>::empty(),
    {
        SourceCorrespondence { claims: NameMap::new() }
    }

    /// Carry these claims. Refused at the first claim, in arrival order, that names no anchor
    /// or whose candidate was claimed before.
    pub fn of(claims: Vec<(Name, CorrespondenceClaim)>) -> (correspondence: Result<SourceCorrespondence, DependenceError>)
        ensures
            correspondence is Ok <==> forall|i: int| 0 <= i < claims@.len() ==> !#[trigger] claim_fault(claims@, i),
            correspondence matches Ok(c) ==> c@.dom() == entry_ids(claims@).to_set()
                && forall|i: int| 0 <= i < claims@.len() ==> c@[#[trigger] entry_ids(claims@)[i]] == claims@[i].1,
            correspondence matches Err(e) ==> exists|i: int| {
                &&& 0 <= i < claims@.len()
                &&& #[trigger] claim_fault(claims@, i)
                &&& forall|j: int| 0 <= j < i ==> !#[trigger] claim_fault(claims@, j)
                &&& if claims@[i].1.anchor_set() == Set::<Seq<char>>::empty() {
                    e matches DependenceError::AnchorlessClaim { id } && id@ == entry_ids(claims@)[i]
                } else {
                    e matches DependenceError::RepeatedClaim { id } && id@ == entry_ids(claims@)[i]
                }
            },
    {
        let ghost ids = entry_ids(claims@);
        let n = claims.len();
        let mut seen = NameSet::new();
        let mut i: usize = 0;
        while i < n
            invariant
                n == claims@.len(),
                ids == entry_ids(claims@),
                i <= n,
                forall|j: int| 0 <= j < i ==> !#[trigger] claim_fault(claims@, j),
                seen.contents() == ids.subrange(0, i as int).to_set(),
            decreases n - i,
        {
            let id = &claims[i].0;
            proof {
                assert(ids[i as int] == id@);
                let prefix = ids.subrange(0, i as int);
                assert(ids.subrange(0, i + 1) =~= prefix.push(id@));
                lemma_push_to_set(prefix, id@);
                assert(prefix.to_set().contains(id@) == prefix.contains(id@));
            }
            if claims[i].1.anchors().is_empty() {
                proof { assert(claim_fault(claims@, i as int)); }
                return Err(DependenceError::AnchorlessClaim { id: id.clone() });
            }
            if seen.contains(id) {
                proof { assert(claim_fault(claims@, i as int)); }
                return Err(DependenceError::RepeatedClaim { id: id.clone() });
            }
            seen.insert(id.clone());
            i = i + 1;
        }
        let ghost all = claims@;
        let mut rest = claims;
        let mut members: NameMap<CorrespondenceClaim> = NameMap::new();
        let mut i: usize = 0;
        while rest.len() > 0
            invariant
                n == all.len(),
                ids == entry_ids(all),
                i + rest@.len() == n,
                rest@ == all.subrange(i as int, n as int),
                forall|j: int| 0 <= j < n ==> !#[trigger] claim_fault(all, j),
                members@.dom() == ids.subrange(0, i as int).to_set(),
                forall|j: int| 0 <= j < i ==> members@[#[trigger] ids[j]] == all[j].1,
            decreases rest@.len(),
        {
            let ghost before_rest = rest@;
            let (id, claim) = rest.remove(0);
            proof {
                assert(all[i as int] == before_rest[0]);
                assert(rest@ =~= all.subrange(i + 1, n as int));
                assert(ids[i as int] == id@);
                let prefix = ids.subrange(0, i as int);
                assert(ids.subrange(0, i + 1) =~= prefix.push(id@));
                lemma_push_to_set(prefix, id@);
                assert(!claim_fault(all, i as int));
                assert(!prefix.to_set().contains(id@));
            }
            let added = members.insert_new(id, claim);
            proof {
                assert(added);
                assert forall|j: int| 0 <= j < i + 1 implies members@[#[trigger] ids[j]] == all[j].1 by {
                    if j < i {
                        assert(ids.subrange(0, i as int)[j] == ids[j]);
                        assert(ids.subrange(0, i as int).to_set().contains(ids[j]));
                        assert(ids[j] != ids[i as int]);
                    }
                }
            }
            i = i + 1;
        }
        proof {
            assert(ids.subrange(0, n as int) =~= ids);
        }
        Ok(SourceCorrespondence { claims: members })
    }

    /// The claim about one candidate, where there is one.
    pub fn claim(&self, id: &Name) -> (claim: Option<&CorrespondenceClaim>)
        ensures
            claim is Some <==> self@.dom().contains(id@),
            claim matches Some(c) ==> *c == self@[id@],
    {
        self.claims.get(id)
    }

    /// The claimed candidates, in canonical order.
    pub fn claimed(&self) -> (claimed: &[Name])
        ensures
            spelled(claimed@).to_set() == self@.dom(),
            strictly_ascending(spelled(claimed@)),
    {
        self.claims.keys()
    }

    /// How many candidates are claimed.
    pub fn len(&self) -> (count: usize)
        ensures
            count == self@.dom().len(),
    {
        self.claims.len()
    }

    /// Whether nothing is claimed.
    pub fn is_empty(&self) -> (empty: bool)
        ensures
            empty == (self@.dom() == Set::<Seq<char>>::empty()),
    {
        let keys = self.claims.keys();
        proof {
            if keys@.len() > 0 {
                assert(spelled(keys@)[0] == keys@[0]@);
                assert(self@.dom().contains(keys@[0]@));
            } else {
                assert(self@.dom() =~= Set::<Seq<char>>::empty());
            }
        }
        keys.len() == 0
    }
}

/// The trusted execution record: each attested candidate with the anchors its dependence was
/// observed on.
#[derive(Debug, PartialEq, Eq)]
pub struct ExecutionDependence {
    attested: NameMap<NameSet>,
}

impl ExecutionDependence {
    /// The anchors attested for each candidate.
    pub closed spec fn attested_view(&self) -> Map<Seq<char>, Set<Seq<char>>> {
        Map::new(|k: Seq<char>| self.attested@.dom().contains(k), |k: Seq<char>| self.attested@[k].contents())
    }

    /// Whether the record attests that `id` depends on `anchor`.
    pub open spec fn attests_spec(&self, id: Seq<char>, anchor: Seq<char>) -> bool {
        self.attested_view().dom().contains(id) && self.attested_view()[id].contains(anchor)
    }

    /// No execution record.
    pub fn none() -> (record: ExecutionDependence)
        ensures
            record.attested_view() == Map::<Seq<char>, Set<Seq<char>>>::empty(),
    {
        let record = ExecutionDependence { attested: NameMap::new() };
        proof { assert(record.attested_view() =~= Map::<Seq<char>, Set<Seq<char>>>::empty()); }
        record
    }

    /// Attest these `(candidate, anchors)` entries. Refused at the first candidate, in arrival
    /// order, attested twice.
    pub fn attesting(entries: Vec<(Name, NameSet)>) -> (record: Result<ExecutionDependence, DependenceError>)
        ensures
            record is Ok <==> forall|i: int| 0 <= i < entries@.len() ==> !#[trigger] repeats_at(entry_ids(entries@), i),
            record matches Ok(r) ==> r.attested_view().dom() == entry_ids(entries@).to_set()
                && forall|i: int| 0 <= i < entries@.len() ==> r.attested_view()[#[trigger] entry_ids(entries@)[i]] == entries@[i].1.contents(),
            record matches Err(e) ==> exists|i: int| #[trigger] first_repeat(entry_ids(entries@), i)
                && (e matches DependenceError::RepeatedAttestation { id } && id@ == entry_ids(entries@)[i]),
    {
        let ghost ids = entry_ids(entries@);
        let n = entries.len();
        let mut seen = NameSet::new();
        let mut i: usize = 0;
        while i < n
            invariant
                n == entries@.len(),
                ids == entry_ids(entries@),
                i <= n,
                forall|j: int| 0 <= j < i ==> !#[trigger] repeats_at(ids, j),
                seen.contents() == ids.subrange(0, i as int).to_set(),
            decreases n - i,
        {
            let id = &entries[i].0;
            proof {
                assert(ids[i as int] == id@);
                let prefix = ids.subrange(0, i as int);
                assert(ids.subrange(0, i + 1) =~= prefix.push(id@));
                lemma_push_to_set(prefix, id@);
                assert(prefix.to_set().contains(id@) == prefix.contains(id@));
            }
            if seen.contains(id) {
                proof {
                    assert(repeats_at(ids, i as int));
                    assert(first_repeat(ids, i as int));
                }
                return Err(DependenceError::RepeatedAttestation { id: id.clone() });
            }
            seen.insert(id.clone());
            i = i + 1;
        }
        let ghost all = entries@;
        let mut rest = entries;
        let mut attested: NameMap<NameSet> = NameMap::new();
        let mut i: usize = 0;
        while rest.len() > 0
            invariant
                n == all.len(),
                ids == entry_ids(all),
                i + rest@.len() == n,
                rest@ == all.subrange(i as int, n as int),
                forall|j: int| 0 <= j < n ==> !#[trigger] repeats_at(ids, j),
                attested@.dom() == ids.subrange(0, i as int).to_set(),
                forall|j: int| 0 <= j < i ==> attested@[#[trigger] ids[j]] == all[j].1,
            decreases rest@.len(),
        {
            let ghost before_rest = rest@;
            let (id, anchors) = rest.remove(0);
            proof {
                assert(all[i as int] == before_rest[0]);
                assert(rest@ =~= all.subrange(i + 1, n as int));
                assert(ids[i as int] == id@);
                let prefix = ids.subrange(0, i as int);
                assert(ids.subrange(0, i + 1) =~= prefix.push(id@));
                lemma_push_to_set(prefix, id@);
                assert(!repeats_at(ids, i as int));
                assert(!prefix.to_set().contains(id@));
            }
            let added = attested.insert_new(id, anchors);
            proof {
                assert(added);
                assert forall|j: int| 0 <= j < i + 1 implies attested@[#[trigger] ids[j]] == all[j].1 by {
                    if j < i {
                        assert(ids.subrange(0, i as int)[j] == ids[j]);
                        assert(ids.subrange(0, i as int).to_set().contains(ids[j]));
                        assert(ids[j] != ids[i as int]);
                    }
                }
            }
            i = i + 1;
        }
        let record = ExecutionDependence { attested };
        proof {
            assert(ids.subrange(0, n as int) =~= ids);
            assert(record.attested_view().dom() =~= ids.to_set());
        }
        Ok(record)
    }

    /// The anchors attested for one candidate, where it is attested.
    pub fn anchors(&self, id: &Name) -> (anchors: Option<&NameSet>)
        ensures
            anchors is Some <==> self.attested_view().dom().contains(id@),
            anchors matches Some(a) ==> a.contents() == self.attested_view()[id@],
    {
        self.attested.get(id)
    }

    /// Whether the record attests that `id` depends on `anchor`.
    pub fn attests(&self, id: &Name, anchor: &Name) -> (attested: bool)
        ensures
            attested == self.attests_spec(id@, anchor@),
    {
        match self.attested.get(id) {
            Some(anchors) => anchors.contains(anchor),
            None => false,
        }
    }
}


/// A candidate stage 4 admits: what it refers to, and the corroborated anchors it attaches to
/// in the published core.
#[derive(Debug, PartialEq, Eq)]
pub struct Admissible {
    reference: CorrespondenceRef,
    anchors: NameSet,
}

impl Clone for Admissible {
    fn clone(&self) -> (copy: Admissible)
        ensures
            copy.referent_view() == self.referent_view(),
            copy.anchor_set() == self.anchor_set(),
    {
        Admissible { reference: self.reference.clone(), anchors: self.anchors.clone() }
    }
}

impl Admissible {
    /// What the admitted candidate refers to.
    pub closed spec fn referent_view(&self) -> (SelectionKind, Seq<char>) {
        self.reference@
    }

    /// The corroborated, published anchors.
    pub closed spec fn anchor_set(&self) -> Set<Seq<char>> {
        self.anchors.contents()
    }

    /// What the admitted candidate refers to.
    pub fn reference(&self) -> (reference: &CorrespondenceRef)
        ensures
            reference@ == self.referent_view(),
    {
        &self.reference
    }

    /// The corroborated, published anchors.
    pub fn anchors(&self) -> (anchors: &NameSet)
        ensures
            anchors.contents() == self.anchor_set(),
    {
        &self.anchors
    }

    /// The candidate kind the admitted item becomes.
    pub fn kind(&self) -> (kind: SelectionKind)
        ensures
            kind == self.referent_view().0,
    {
        self.reference.kind()
    }
}

/// Stage 4's answer for one candidate.
#[derive(Debug, PartialEq, Eq)]
pub enum Admissibility {
    /// Admitted.
    Admissible(Admissible),
    /// Declined, and why.
    Inadmissible(Inadmissible),
}

impl Admissibility {
    /// Whether the candidate is admitted.
    pub fn is_admissible(&self) -> (admitted: bool)
        ensures
            admitted == (self is Admissible),
    {
        matches!(self, Admissibility::Admissible(_))
    }

    /// Why the candidate is declined, where it is.
    pub fn inadmissible(&self) -> (reason: Option<Inadmissible>)
        ensures
            reason is Some <==> self is Inadmissible,
            self matches Admissibility::Inadmissible(r) ==> reason == Some(*r),
    {
        match self {
            Admissibility::Admissible(_) => None,
            Admissibility::Inadmissible(reason) => Some(*reason),
        }
    }

    /// The admitted item, where the candidate is admitted.
    pub fn admissible(&self) -> (admitted: Option<&Admissible>)
        ensures
            admitted is Some <==> self is Admissible,
            self matches Admissibility::Admissible(a) ==> admitted == Some(a),
    {
        match self {
            Admissibility::Admissible(admitted) => Some(admitted),
            Admissibility::Inadmissible(_) => None,
        }
    }
}

/// Stage 4's premise: the untrusted correspondence joined with the trusted execution record.
#[derive(Debug, PartialEq, Eq)]
pub struct DependenceJoin {
    correspondence: SourceCorrespondence,
    execution: ExecutionDependence,
}

impl DependenceJoin {
    /// The claims.
    pub closed spec fn claims(&self) -> Map<Seq<char>, CorrespondenceClaim> {
        self.correspondence@
    }

    /// The execution record.
    pub closed spec fn record(&self) -> ExecutionDependence {
        self.execution
    }

    /// The anchors of `candidate`'s claim the execution record attests.
    pub open spec fn corroborated(&self, candidate: Seq<char>) -> Set<Seq<char>> {
        self.claims()[candidate].anchor_set().filter(|a: Seq<char>| self.record().attests_spec(candidate, a))
    }

    /// What stage 4 answers for `candidate` against the published `selection`.
    pub open spec fn answers(&self, candidate: Seq<char>, selection: Set<Seq<char>>, answer: Admissibility) -> bool {
        if !self.claims().dom().contains(candidate) {
            answer == Admissibility::Inadmissible(Inadmissible::NoCorrespondence)
        } else if self.corroborated(candidate) == Set::<Seq<char>>::empty() {
            answer == Admissibility::Inadmissible(Inadmissible::UncorroboratedSource)
        } else if self.corroborated(candidate).intersect(selection) == Set::<Seq<char>>::empty() {
            answer == Admissibility::Inadmissible(Inadmissible::AnchorNotSelected)
        } else {
            answer matches Admissibility::Admissible(a)
                && a.referent_view() == self.claims()[candidate].referent_view()
                && a.anchor_set() == self.corroborated(candidate).intersect(selection)
        }
    }

    /// Join `correspondence` with `execution`.
    pub fn new(correspondence: SourceCorrespondence, execution: ExecutionDependence) -> (join: DependenceJoin)
        ensures
            join.claims() == correspondence@,
            join.record() == execution,
    {
        DependenceJoin { correspondence, execution }
    }

    /// The untrusted correspondence.
    pub fn correspondence(&self) -> (correspondence: &SourceCorrespondence)
        ensures
            correspondence@ == self.claims(),
    {
        &self.correspondence
    }

    /// The trusted execution record.
    pub fn execution(&self) -> (execution: &ExecutionDependence)
        ensures
            *execution == self.record(),
    {
        &self.execution
    }

    /// The claimed candidates, in canonical order.
    pub fn claimed(&self) -> (claimed: &[Name])
        ensures
            spelled(claimed@).to_set() == self.claims().dom(),
            strictly_ascending(spelled(claimed@)),
    {
        self.correspondence.claimed()
    }

    /// What `id`'s claim refers to, where it is claimed.
    pub fn reference(&self, id: &Name) -> (reference: Option<&CorrespondenceRef>)
        ensures
            reference is Some <==> self.claims().dom().contains(id@),
            reference matches Some(r) ==> r@ == self.claims()[id@].referent_view(),
    {
        match self.correspondence.claim(id) {
            Some(claim) => Some(claim.reference()),
            None => None,
        }
    }

    /// Whether `candidate` is admitted against the published `selection`: it must be claimed,
    /// some anchor of its claim must be attested by the execution record, and some attested
    /// anchor must be published.
    pub fn admissibility(&self, candidate: &Name, selection: &NameSet) -> (answer: Admissibility)
        ensures
            self.answers(candidate@, selection.contents(), answer),
    {
        let claim = match self.correspondence.claim(candidate) {
            Some(claim) => claim,
            None => return Admissibility::Inadmissible(Inadmissible::NoCorrespondence),
        };
        let anchors = claim.anchors().members();
        let ghost p = |a: Seq<char>| self.record().attests_spec(candidate@, a);
        let mut corroborated = NameSet::new();
        let mut published = NameSet::new();
        let mut i: usize = 0;
        while i < anchors.len()
            invariant
                spelled(anchors@) == claim.anchor_listing(),
                claim.anchor_set() == claim.anchor_listing().to_set(),
                *claim == self.claims()[candidate@],
                p == (|a: Seq<char>| self.record().attests_spec(candidate@, a)),
                i <= anchors@.len(),
                corroborated.contents() == claim.anchor_listing().subrange(0, i as int).to_set().filter(p),
                published.contents() == claim.anchor_listing().subrange(0, i as int).to_set().filter(p).intersect(selection.contents()),
            decreases anchors@.len() - i,
        {
            let ghost a = claim.anchor_listing()[i as int];
            let ghost before = claim.anchor_listing().subrange(0, i as int);
            proof {
                assert(a == anchors@[i as int]@);
                assert(claim.anchor_listing().subrange(0, i + 1) =~= before.push(a));
                lemma_push_to_set(before, a);
            }
            if self.execution.attests(candidate, &anchors[i]) {
                corroborated.insert(anchors[i].clone());
                if selection.contains(&anchors[i]) {
                    published.insert(anchors[i].clone());
                }
                proof {
                    assert(before.to_set().insert(a).filter(p) =~= before.to_set().filter(p).insert(a));
                    assert(before.to_set().insert(a).filter(p).intersect(selection.contents())
                        =~= published.contents());
                }
            } else {
                proof {
                    assert(before.to_set().insert(a).filter(p) =~= before.to_set().filter(p));
                }
            }
            i = i + 1;
        }
        proof {
            assert(claim.anchor_listing().subrange(0, i as int) =~= claim.anchor_listing());
            assert(corroborated.contents() =~= self.corroborated(candidate@));
        }
        if corroborated.is_empty() {
            return Admissibility::Inadmissible(Inadmissible::UncorroboratedSource);
        }
        if published.is_empty() {
            return Admissibility::Inadmissible(Inadmissible::AnchorNotSelected);
        }
        Admissibility::Admissible(Admissible { reference: claim.reference().clone(), anchors: published })
    }
}


/// Stage 4 admits only what both sides assert: an admitted candidate is claimed by the
/// correspondence, and every anchor it attaches to is one its claim names, the execution
/// record attests, and the published core holds.
pub proof fn law_admission_needs_both_sides(
    join: DependenceJoin,
    candidate: Seq<char>,
    selection: Set<Seq<char>>,
    answer: Admissibility,
)
    requires
        join.answers(candidate, selection, answer),
        answer is Admissible,
    ensures
        join.claims().dom().contains(candidate),
        forall|a: Seq<char>| #[trigger] answer->Admissible_0.anchor_set().contains(a) ==> {
            &&& join.claims()[candidate].anchor_set().contains(a)
            &&& join.record().attests_spec(candidate, a)
            &&& selection.contains(a)
        },
        answer->Admissible_0.anchor_set() != Set::<Seq<char>>::empty(),
{
}


impl Inadmissible {
    /// Why the candidate is declined, as a sentence.
    pub open spec fn explanation(self) -> Seq<char> {
        match self {
            Inadmissible::NoCorrespondence => "no source correspondence claims this candidate"@,
            Inadmissible::UncorroboratedSource =>
                "the dependence is claimed only by the source correspondence, which is untrusted data; the execution record attests none of it"@,
            Inadmissible::AnchorNotSelected =>
                "every corroborated anchor is outside the published core, so the item has nothing in the pack to attach to"@,
        }
    }

    /// Why the candidate is declined, as a sentence.
    pub fn message(self) -> (text: String)
        ensures
            text@ == self.explanation(),
    {
        let mut out = String::new();
        match self {
            Inadmissible::NoCorrespondence => write_raw(&mut out, "no source correspondence claims this candidate"),
            Inadmissible::UncorroboratedSource => write_raw(&mut out,
                "the dependence is claimed only by the source correspondence, which is untrusted data; the execution record attests none of it"),
            Inadmissible::AnchorNotSelected => write_raw(&mut out,
                "every corroborated anchor is outside the published core, so the item has nothing in the pack to attach to"),
        }
        out
    }
}

} // verus!
