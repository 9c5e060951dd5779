//! Stage group 1's vocabulary: the redaction reasons the pre-pass withholds candidates under.

use vstd::prelude::*;

use crate::accounting::{
    chosen, chosen_upto, crowds_cell, decision_outcome, entries_of, lemma_chosen_listing, lemma_decide_at, lemma_dispositions_partition,
    lemma_names_unique, lemma_nothing_pending, lemma_sorted_input_kept, names_ascending, occurrences, omitted_cells,
    pending, Accounting, AccountingError, CandidateSet, ClosedAccounting, Decision, Entry, Omitted,
};
use crate::causal::{
    closure_of, closure_report, downward_closed, is_backward_closure, law_backward_closure_is_unique,
    lemma_report_none_iff_closed, CausalError, CausalOrder, ClosureViolation, Graph,
};
use crate::expansion::ExpansionQuery;
use crate::guarantee::{lists_in_schema_order, Guarantee, GuaranteeSet, License, SealedGuarantees};
use crate::name::{lemma_insert_ascending, lemma_push_to_set, locate, spelled, strictly_ascending, Name, NameSet};
use crate::omission::{covers, partitions, IrretrievableReason, OmissionReason, QueryView};
use crate::selection::SelectionKind;
use crate::text::str_eq;

verus! {

/// Why a candidate is withheld from this caller: the schema's three redaction reasons.
#[derive(Debug, Clone, Copy, PartialEq, Eq, Hash, PartialOrd, Ord, Structural)]
pub enum RedactionReason {
    /// The content was replaced by a summary.
    Summarized,
    /// The content is no longer held.
    Lost,
    /// The content was deleted under policy.
    Purged,
}

impl RedactionReason {
    /// Every member, in declaration order.
    pub const ALL: [RedactionReason; 3] = [
        RedactionReason::Summarized,
        RedactionReason::Lost,
        RedactionReason::Purged,
    ];

    /// The member's position in declaration order.
    pub open spec fn rank(self) -> int {
        match self {
            RedactionReason::Summarized => 0,
            RedactionReason::Lost => 1,
            RedactionReason::Purged => 2,
        }
    }

    /// `ALL` lists every member at its rank.
    pub proof fn lemma_all_lists(member: RedactionReason)
        ensures
            0 <= member.rank() < 3,
            RedactionReason::ALL@[member.rank()] == member,
    {
    }

    /// The member's stable token.
    pub open spec fn wire(self) -> Seq<char> {
        match self {
            RedactionReason::Summarized => "summarized"@,
            RedactionReason::Lost => "lost"@,
            RedactionReason::Purged => "purged"@,
        }
    }

    /// The schema's wire token.
    pub fn as_wire_str(self) -> (text: &'static str)
        ensures
            text@ == self.wire(),
    {
        match self {
            RedactionReason::Summarized => "summarized",
            RedactionReason::Lost => "lost",
            RedactionReason::Purged => "purged",
        }
    }

    /// The token's length and the characters that tell members' tokens apart.
    pub open spec fn signature(self) -> int {
        match self {
            RedactionReason::Summarized => 10,
            RedactionReason::Lost => 4,
            RedactionReason::Purged => 6,
        }
    }

    proof fn lemma_signature(member: RedactionReason)
        ensures
            member.wire().len() == member.signature(),
    {
        match member {
            RedactionReason::Summarized => reveal_strlit("summarized"),
            RedactionReason::Lost => reveal_strlit("lost"),
            RedactionReason::Purged => reveal_strlit("purged"),
        }
    }

    /// Distinct members have distinct tokens.
    pub proof fn lemma_wire_injective(a: RedactionReason, b: RedactionReason)
        ensures
            a.wire() == b.wire() ==> a == b,
    {
        RedactionReason::lemma_signature(a);
        RedactionReason::lemma_signature(b);
    }

    /// Recover a member from its token, failing closed on anything else.
    pub fn from_wire_str(text: &str) -> (parsed: Option<RedactionReason>)
        ensures
            forall|member: RedactionReason| (parsed == Some(member)) == (text@ == member.wire()),
    {
        let all = RedactionReason::ALL;
        let mut i: usize = 0;
        while i < 3
            invariant
                all@ == RedactionReason::ALL@,
                i <= 3,
                forall|j: int| 0 <= j < i ==> text@ != all@[j].wire(),
            decreases 3 - i,
        {
            if str_eq(text, all[i].as_wire_str()) {
                proof {
                    assert forall|member: RedactionReason| (Some(all[i as int]) == Some(member)) == (text@ == member.wire()) by {
                        RedactionReason::lemma_wire_injective(all[i as int], member);
                    }
                }
                return Some(all[i]);
            }
            i = i + 1;
        }
        proof {
            assert forall|member: RedactionReason| text@ != member.wire() by {
                RedactionReason::lemma_all_lists(member);
            }
        }
        None
    }

}

/// The policy a list of `(identity, reason)` pairs spells: each identity withheld for the
/// reason given last for it.
pub open spec fn policy_of(entries: Seq<(Seq<char>, RedactionReason)>) -> Map<Seq<char>, RedactionReason>
    decreases entries.len(),
{
    if entries.len() == 0 {
        Map::empty()
    } else {
        policy_of(entries.drop_last()).insert(entries.last().0, entries.last().1)
    }
}

/// The identifiers and reasons a list of `(name, reason)` pairs spells.
pub open spec fn withheld_entries(entries: Seq<(Name, RedactionReason)>) -> Seq<(Seq<char>, RedactionReason)> {
    entries.map_values(|e: (Name, RedactionReason)| (e.0@, e.1))
}

/// The map parallel listings of identities and reasons spell.
pub open spec fn reasons_by_name(names: Seq<Seq<char>>, reasons: Seq<RedactionReason>) -> Map<Seq<char>, RedactionReason> {
    Map::new(|id: Seq<char>| names.contains(id), |id: Seq<char>| reasons[names.index_of(id)])
}

/// In a listing without repeats, each identity maps to the reason beside it.
proof fn lemma_reason_at(names: Seq<Seq<char>>, reasons: Seq<RedactionReason>, i: int)
    requires
        names.no_duplicates(),
        0 <= i < names.len(),
    ensures
        reasons_by_name(names, reasons).dom().contains(names[i]),
        reasons_by_name(names, reasons)[names[i]] == reasons[i],
{
    assert(names.contains(names[i]));
    let j = names.index_of(names[i]);
    assert(0 <= j < names.len() && names[j] == names[i]);
}

/// Field policy, resolved against this caller's scope, as it stands before stage 1: the
/// withheld candidates, each with the reason it is withheld.
#[derive(Debug, PartialEq, Eq)]
pub struct RedactionPolicy {
    names: Vec<Name>,
    reasons: Vec<RedactionReason>,
}

impl View for RedactionPolicy {
    type V = Map<Seq<char>, RedactionReason>;

    closed spec fn view(&self) -> Map<Seq<char>, RedactionReason> {
        reasons_by_name(spelled(self.names@), self.reasons@)
    }
}

impl RedactionPolicy {
    #[verifier::type_invariant]
    spec fn canonical(self) -> bool {
        &&& self.names@.len() == self.reasons@.len()
        &&& strictly_ascending(spelled(self.names@))
    }

    /// The withheld identities, in canonical order.
    pub closed spec fn listing(&self) -> Seq<Seq<char>> {
        spelled(self.names@)
    }

    fn facts(&self)
        ensures
            strictly_ascending(self.listing()),
            self.listing().no_duplicates(),
            self@.dom() == self.listing().to_set(),
            self.names@.len() == self.reasons@.len(),
            forall|i: int| 0 <= i < self.listing().len() ==> self@[#[trigger] self.listing()[i]] == self.reasons@[i],
    {
        proof {
            use_type_invariant(self);
            crate::name::lemma_ascending_no_duplicates(self.listing());
            assert(self@.dom() =~= self.listing().to_set());
            assert forall|i: int| 0 <= i < self.listing().len() implies self@[#[trigger] self.listing()[i]] == self.reasons@[i] by {
                lemma_reason_at(self.listing(), self.reasons@, i);
            }
        }
    }

    /// A policy that withholds nothing.
    pub fn permitting_everything() -> (policy: RedactionPolicy)
        ensures
            policy@ == Map::<Seq<char>, RedactionReason>::empty(),
    {
        let policy = RedactionPolicy { names: Vec::new(), reasons: Vec::new() };
        assert(policy@ =~= Map::<Seq<char>, RedactionReason>::empty());
        policy
    }

    /// A policy withholding the named candidates, each for the reason given last for it.
    pub fn withholding(entries: Vec<(Name, RedactionReason)>) -> (policy: RedactionPolicy)
        ensures
            policy@ == policy_of(withheld_entries(entries@)),
    {
        let ghost all = withheld_entries(entries@);
        let n = entries.len();
        let mut names: Vec<Name> = Vec::new();
        let mut reasons: Vec<RedactionReason> = Vec::new();
        let mut i: usize = 0;
        while i < n
            invariant
                n == entries@.len(),
                all == withheld_entries(entries@),
                i <= n,
                names@.len() == reasons@.len(),
                strictly_ascending(spelled(names@)),
                reasons_by_name(spelled(names@), reasons@) == policy_of(all.subrange(0, i as int)),
            decreases n - i,
        {
            let ghost before = reasons_by_name(spelled(names@), reasons@);
            let ghost old_names = spelled(names@);
            let ghost old_reasons = reasons@;
            let id = entries[i].0.clone();
            let reason = entries[i].1;
            proof {
                crate::name::lemma_ascending_no_duplicates(old_names);
                assert(all.subrange(0, i + 1).drop_last() =~= all.subrange(0, i as int));
                assert(all[i as int] == (id@, reason));
            }
            match locate(names.as_slice(), &id) {
                Ok(p) => {
                    reasons.set(p, reason);
                    proof {
                        assert(spelled(names@) == old_names);
                        assert(reasons_by_name(old_names, reasons@) =~= before.insert(id@, reason)) by {
                            assert forall|x: Seq<char>| #[trigger] reasons_by_name(old_names, reasons@).dom().contains(x)
                                implies reasons_by_name(old_names, reasons@)[x] == before.insert(id@, reason)[x] by {
                                assert(old_names.contains(x));
                                let q = old_names.index_of(x);
                                assert(old_names[q] == x);
                                assert(old_names[p as int] == id@);
                                lemma_reason_at(old_names, reasons@, q);
                                lemma_reason_at(old_names, old_reasons, q);
                            }
                            assert(old_names.contains(id@)) by {
                                assert(old_names[p as int] == id@);
                            }
                        }
                    }
                },
                Err(p) => {
                    proof { lemma_insert_ascending(old_names, p as int, id@); }
                    names.insert(p, id);
                    reasons.insert(p, reason);
                    proof {
                        let now = spelled(names@);
                        assert(now =~= old_names.insert(p as int, id@));
                        crate::name::lemma_ascending_no_duplicates(now);
                        assert(reasons_by_name(now, reasons@) =~= before.insert(id@, reason)) by {
                            assert forall|x: Seq<char>| reasons_by_name(now, reasons@).dom().contains(x)
                                <==> before.insert(id@, reason).dom().contains(x) by {
                                assert(now.to_set() == old_names.to_set().insert(id@));
                                if now.contains(x) {
                                    assert(now.to_set().contains(x));
                                }
                                if old_names.contains(x) {
                                    assert(old_names.to_set().contains(x));
                                    assert(now.to_set().contains(x));
                                }
                                if x == id@ {
                                    assert(now[p as int] == id@);
                                }
                            }
                            assert forall|x: Seq<char>| #[trigger] reasons_by_name(now, reasons@).dom().contains(x)
                                implies reasons_by_name(now, reasons@)[x] == before.insert(id@, reason)[x] by {
                                let q = now.index_of(x);
                                lemma_reason_at(now, reasons@, q);
                                if q < p {
                                    lemma_reason_at(old_names, old_reasons, q);
                                } else if q > p {
                                    lemma_reason_at(old_names, old_reasons, q - 1);
                                }
                            }
                        }
                    }
                },
            }
            i = i + 1;
        }
        proof {
            assert(all.subrange(0, n as int) =~= all);
        }
        RedactionPolicy { names, reasons }
    }

    /// Whether this candidate is withheld.
    pub fn withholds(&self, id: &Name) -> (withheld: bool)
        ensures
            withheld == self@.dom().contains(id@),
    {
        self.facts();
        match locate(self.names.as_slice(), id) {
            Ok(p) => {
                proof { assert(self.listing().to_set().contains(self.listing()[p as int])); }
                true
            },
            Err(_) => {
                proof {
                    assert forall|q: int| 0 <= q < self.listing().len() implies self.listing()[q] != id@ by {
                        assert(self.listing()[q] == self.names@[q]@);
                    }
                }
                false
            },
        }
    }

    /// Why this candidate is withheld, when it is.
    pub fn reason(&self, id: &Name) -> (reason: Option<RedactionReason>)
        ensures
            reason is Some <==> self@.dom().contains(id@),
            reason matches Some(r) ==> r == self@[id@],
    {
        self.facts();
        match locate(self.names.as_slice(), id) {
            Ok(p) => {
                proof { assert(self.listing()[p as int] == id@); }
                Some(self.reasons[p])
            },
            Err(_) => {
                proof {
                    assert forall|q: int| 0 <= q < self.listing().len() implies self.listing()[q] != id@ by {
                        assert(self.listing()[q] == self.names@[q]@);
                    }
                }
                None
            },
        }
    }

    /// Whether the policy withholds nothing at all.
    pub fn is_permissive(&self) -> (permissive: bool)
        ensures
            permissive == (self@.dom() == Set::<Seq<char>>::empty()),
    {
        self.facts();
        proof {
            if self.listing().len() > 0 {
                assert(self@.dom().contains(self.listing()[0]));
            } else {
                assert(self@.dom() =~= Set::<Seq<char>>::empty());
            }
        }
        self.names.len() == 0
    }

    /// The withheld identities, in canonical order.
    pub fn withheld(&self) -> (withheld: Vec<Name>)
        ensures
            spelled(withheld@) == self.listing(),
            strictly_ascending(self.listing()),
            self.listing().to_set() == self@.dom(),
    {
        self.facts();
        let n = self.names.len();
        let mut withheld: Vec<Name> = Vec::new();
        let mut i: usize = 0;
        while i < n
            invariant
                n == self.names@.len(),
                i <= n,
                spelled(withheld@) == self.listing().subrange(0, i as int),
            decreases n - i,
        {
            let name = self.names[i].clone();
            let ghost before = withheld@;
            withheld.push(name);
            proof {
                assert(spelled(withheld@) =~= spelled(before).push(name@));
                assert(spelled(withheld@) =~= self.listing().subrange(0, i + 1));
            }
            i = i + 1;
        }
        proof {
            assert(self.listing().subrange(0, n as int) =~= self.listing());
        }
        withheld
    }
}

/// Whether stage 1 refuses `root`: it is not a node of the order, or policy withholds it.
pub open spec fn root_refused(graph: Graph, withheld: Set<Seq<char>>, root: Seq<char>) -> bool {
    !graph.dom().contains(root) || withheld.contains(root)
}

/// The candidates of a causal order, in canonical order, each with its kind.
pub open spec fn order_entries(order: CausalOrder) -> Seq<Entry> {
    Seq::new(order.listing().len(), |i: int| (order.listing()[i], order.kind_of(order.listing()[i])))
}

/// What stages 1 and 2 decide about node `x`: in the pack when the slice keeps it, an
/// irretrievable redaction when policy withholds it, and otherwise left behind the residual
/// query for the order's drop reason.
pub open spec fn slice_decision(
    kept: Set<Seq<char>>,
    withheld: Set<Seq<char>>,
    reason: OmissionReason,
    residual: QueryView,
    x: Seq<char>,
) -> Decision {
    if kept.contains(x) {
        Decision::Selected
    } else if withheld.contains(x) {
        Decision::Omitted((OmissionReason::Redaction, None))
    } else {
        Decision::Omitted((reason, Some(residual)))
    }
}

/// What stages 1 and 2 decide about each node of the order, in canonical order.
pub open spec fn slice_decisions(
    order: CausalOrder,
    kept: Set<Seq<char>>,
    withheld: Set<Seq<char>>,
    reason: OmissionReason,
    residual: QueryView,
) -> Seq<Decision> {
    Seq::new(order.listing().len(), |i: int| slice_decision(kept, withheld, reason, residual, order.listing()[i]))
}

/// A compile of stages 1 and 2 over one causal order under one field policy.
#[derive(Debug)]
pub struct CausalCompile {
    order: CausalOrder,
    policy: RedactionPolicy,
}

/// What stages 1 and 2 produced: the closed accounting, the guarantees they established, the
/// independent checker's report on the published selection, and the causal ancestors the
/// slice needed and policy withheld.
#[derive(Debug, PartialEq, Eq)]
pub struct Compilation {
    accounting: ClosedAccounting,
    guarantees: SealedGuarantees,
    closure_violation: Option<ClosureViolation>,
    redaction_gap: NameSet,
}

/// A way a compile of stages 1 and 2 refuses.
#[derive(Debug, PartialEq, Eq)]
pub enum CompileError {
    /// Field policy withheld a root: a redacted root is not a root.
    RedactedRoot {
        /// The root policy withheld.
        id: Name,
        /// Why it is withheld.
        reason: RedactionReason,
    },
    /// The causal order refused the request.
    Causal(CausalError),
    /// The residual expansion query anchors at something the pack does not publish.
    AnchorNotSelected {
        /// The anchor that does not resolve in the selection.
        anchor: Name,
    },
    /// Closed accounting refused.
    Accounting(AccountingError),
    /// Rule C2 refused a set this stage group cannot build.
    Unreachable,
}

impl Compilation {
    /// The selection and the manifest, read off one ledger.
    pub closed spec fn ledger(&self) -> ClosedAccounting {
        self.accounting
    }

    /// The guarantees these stages established.
    pub closed spec fn established(&self) -> Seq<Guarantee> {
        self.guarantees@
    }

    /// What the independent closure check reported on the published selection.
    pub closed spec fn violation(&self) -> Option<ClosureViolation> {
        self.closure_violation
    }

    /// The causal ancestors the slice needed and policy withheld.
    pub closed spec fn gap(&self) -> Set<Seq<char>> {
        self.redaction_gap.contents()
    }

    /// The selection and the manifest, read off one ledger.
    pub fn accounting(&self) -> (accounting: &ClosedAccounting)
        ensures
            *accounting == self.ledger(),
    {
        &self.accounting
    }

    /// The guarantees these stages established, never the ones requested.
    pub fn guarantees(&self) -> (guarantees: &SealedGuarantees)
        ensures
            guarantees@ == self.established(),
    {
        &self.guarantees
    }

    /// The published selection, in canonical order.
    pub fn selected(&self) -> (selected: &[Name])
        ensures
            spelled(selected@) == self.ledger().selection(),
    {
        self.accounting.selected()
    }

    /// Why closure was not licensed, when it was not.
    pub fn closure_violation(&self) -> (violation: Option<&ClosureViolation>)
        ensures
            violation is None <==> self.violation() is None,
            violation matches Some(v) ==> self.violation() == Some(*v),
    {
        match &self.closure_violation {
            Some(v) => Some(v),
            None => None,
        }
    }

    /// The causal ancestors the slice needed and policy withheld, in canonical order.
    pub fn redaction_gap(&self) -> (gap: &NameSet)
        ensures
            gap.contents() == self.gap(),
    {
        &self.redaction_gap
    }

    /// Whether this compile established causal closure.
    pub fn is_causally_closed(&self) -> (closed: bool)
        ensures
            closed == self.established().contains(Guarantee::CausallyClosed),
    {
        let members = self.guarantees.members();
        let mut i: usize = 0;
        while i < members.len()
            invariant
                members@ == self.established(),
                i <= members@.len(),
                forall|q: int| 0 <= q < i ==> members@[q] != Guarantee::CausallyClosed,
            decreases members@.len() - i,
        {
            if members[i] == Guarantee::CausallyClosed {
                return true;
            }
            i = i + 1;
        }
        false
    }
}

impl CausalCompile {
    /// Prepare a compile.
    pub fn new(order: CausalOrder, policy: RedactionPolicy) -> (compile: CausalCompile)
        ensures
            compile.order_spec() == order,
            compile.policy_spec() == policy,
    {
        CausalCompile { order, policy }
    }

    /// The causal order this compile slices over.
    pub closed spec fn order_spec(&self) -> CausalOrder {
        self.order
    }

    /// The policy in force before stage 1.
    pub closed spec fn policy_spec(&self) -> RedactionPolicy {
        self.policy
    }

    /// The causal order this compile slices over.
    pub fn order(&self) -> (order: &CausalOrder)
        ensures
            *order == self.order_spec(),
    {
        &self.order
    }

    /// The policy in force before stage 1.
    pub fn policy(&self) -> (policy: &RedactionPolicy)
        ensures
            *policy == self.policy_spec(),
    {
        &self.policy
    }
}

impl CausalCompile {
    /// The backward closure stage 2 takes of `roots`.
    pub open spec fn slice(&self, roots: Set<Seq<char>>) -> Set<Seq<char>> {
        closure_of(self.order_spec().graph(), roots)
    }

    /// What the compile publishes of that slice: everything policy does not withhold.
    pub open spec fn kept(&self, roots: Set<Seq<char>>) -> Set<Seq<char>> {
        self.slice(roots).difference(self.policy_spec()@.dom())
    }

    /// The part of the slice policy withholds.
    pub open spec fn gap_of(&self, roots: Set<Seq<char>>) -> Set<Seq<char>> {
        self.slice(roots).intersect(self.policy_spec()@.dom())
    }

    /// Whether some node is neither in the slice nor withheld, and so is left behind the
    /// residual query.
    pub open spec fn leaves_residual(&self, roots: Set<Seq<char>>) -> bool {
        exists|x: Seq<char>| {
            &&& #[trigger] self.order_spec().graph().dom().contains(x)
            &&& !self.slice(roots).contains(x)
            &&& !self.policy_spec()@.dom().contains(x)
        }
    }

    /// What the compile decides about each node, in canonical order.
    pub open spec fn decisions_for(&self, roots: Set<Seq<char>>, residual: QueryView) -> Seq<Decision> {
        slice_decisions(
            self.order_spec(),
            self.kept(roots),
            self.policy_spec()@.dom(),
            self.order_spec().declared_completeness().drop_reason(),
            residual,
        )
    }

    /// Whether stage 1 accepts every root.
    pub open spec fn roots_accepted(&self, roots: Seq<Seq<char>>) -> bool {
        forall|k: int| 0 <= k < roots.len() ==> !root_refused(self.order_spec().graph(), self.policy_spec()@.dom(), #[trigger] roots[k])
    }
}

impl CausalCompile {
    /// Stage 1: the refusal the first root in canonical order earns, if any does.
    fn refused_root(&self, roots: &NameSet) -> (refusal: Option<CompileError>)
        ensures
            refusal is None <==> self.roots_accepted(roots.listing()),
            refusal matches Some(e) ==> exists|k: int| {
                &&& 0 <= k < roots.listing().len()
                &&& root_refused(self.order_spec().graph(), self.policy_spec()@.dom(), roots.listing()[k])
                &&& forall|m: int| 0 <= m < k ==> !root_refused(
                    self.order_spec().graph(),
                    self.policy_spec()@.dom(),
                    #[trigger] roots.listing()[m],
                )
                &&& (match e {
                    CompileError::Causal(CausalError::UnknownEndpoint { id }) => id@ == roots.listing()[k]
                        && !self.order_spec().graph().dom().contains(id@),
                    CompileError::RedactedRoot { id, reason } => id@ == roots.listing()[k]
                        && self.order_spec().graph().dom().contains(id@)
                        && self.policy_spec()@.dom().contains(id@) && reason == self.policy_spec()@[id@],
                    _ => false,
                })
            },
    {
        let seeds = roots.members();
        let mut k: usize = 0;
        while k < seeds.len()
            invariant
                spelled(seeds@) == roots.listing(),
                k <= seeds@.len(),
                forall|m: int| 0 <= m < k ==> !root_refused(
                    self.order_spec().graph(),
                    self.policy_spec()@.dom(),
                    #[trigger] roots.listing()[m],
                ),
            decreases seeds@.len() - k,
        {
            proof { assert(roots.listing()[k as int] == seeds@[k as int]@); }
            if !self.order.contains(&seeds[k]) {
                return Some(CompileError::Causal(CausalError::UnknownEndpoint { id: seeds[k].clone() }));
            }
            match self.policy.reason(&seeds[k]) {
                Some(reason) => {
                    return Some(CompileError::RedactedRoot { id: seeds[k].clone(), reason });
                },
                None => {},
            }
            k = k + 1;
        }
        None
    }

    /// The pre-pass applied to the slice: what is published, and what policy withheld from it.
    fn split_slice(&self, closure: &NameSet) -> (split: (NameSet, NameSet))
        ensures
            split.0.contents() == closure.contents().difference(self.policy_spec()@.dom()),
            split.1.contents() == closure.contents().intersect(self.policy_spec()@.dom()),
    {
        let ghost withheld = self.policy_spec()@.dom();
        let members = closure.members();
        let mut kept = NameSet::new();
        let mut gap = NameSet::new();
        let mut i: usize = 0;
        while i < members.len()
            invariant
                spelled(members@) == closure.listing(),
                withheld == self.policy_spec()@.dom(),
                i <= members@.len(),
                kept.contents() == closure.listing().subrange(0, i as int).to_set().difference(withheld),
                gap.contents() == closure.listing().subrange(0, i as int).to_set().intersect(withheld),
            decreases members@.len() - i,
        {
            let ghost x = closure.listing()[i as int];
            proof {
                assert(x == members@[i as int]@);
                let before = closure.listing().subrange(0, i as int);
                assert(closure.listing().subrange(0, i + 1) =~= before.push(x));
                lemma_push_to_set(before, x);
            }
            if self.policy.withholds(&members[i]) {
                gap.insert(members[i].clone());
                proof {
                    let before = closure.listing().subrange(0, i as int);
                    assert(kept.contents() =~= before.push(x).to_set().difference(withheld));
                    assert(gap.contents() =~= before.push(x).to_set().intersect(withheld));
                }
            } else {
                kept.insert(members[i].clone());
                proof {
                    let before = closure.listing().subrange(0, i as int);
                    assert(kept.contents() =~= before.push(x).to_set().difference(withheld));
                    assert(gap.contents() =~= before.push(x).to_set().intersect(withheld));
                }
            }
            i = i + 1;
        }
        proof {
            assert(closure.listing().subrange(0, i as int) =~= closure.listing());
        }
        (kept, gap)
    }

    /// The order's nodes with their kinds, in canonical order: the candidate set.
    fn ledger_entries(&self) -> (entries: Vec<(Name, SelectionKind)>)
        ensures
            entries_of(entries@) == order_entries(self.order_spec()),
            names_ascending(order_entries(self.order_spec())),
            self.order_spec().listing().to_set() == self.order_spec().graph().dom(),
    {
        let nodes = self.order.nodes();
        let ghost listing = self.order_spec().listing();
        let mut entries: Vec<(Name, SelectionKind)> = Vec::new();
        let mut i: usize = 0;
        while i < nodes.len()
            invariant
                spelled(nodes@) == listing,
                listing == self.order_spec().listing(),
                listing.to_set() == self.order_spec().graph().dom(),
                i <= nodes@.len(),
                entries_of(entries@) == order_entries(self.order_spec()).subrange(0, i as int),
            decreases nodes@.len() - i,
        {
            proof {
                assert(listing[i as int] == nodes@[i as int]@);
                assert(listing.to_set().contains(listing[i as int]));
            }
            let kind = match self.order.kind(&nodes[i]) {
                Some(kind) => kind,
                None => {
                    proof { assert(false); }
                    SelectionKind::Unknown
                },
            };
            let ghost before = entries@;
            let pair = (nodes[i].clone(), kind);
            entries.push(pair);
            proof {
                assert(entries@ == before.push(pair));
                assert(entries_of(entries@) =~= entries_of(before).push((pair.0@, pair.1)));
                assert(entries_of(entries@) =~= order_entries(self.order_spec()).subrange(0, i + 1));
            }
            i = i + 1;
        }
        proof {
            assert(order_entries(self.order_spec()).subrange(0, i as int) =~= order_entries(self.order_spec()));
            assert forall|a: int, b: int| 0 <= a < b < order_entries(self.order_spec()).len() implies crate::name::precedes(
                #[trigger] order_entries(self.order_spec())[a].0,
                #[trigger] order_entries(self.order_spec())[b].0,
            ) by {
                assert(crate::name::precedes(listing[a], listing[b]));
            }
        }
        entries
    }
}

impl CausalCompile {
    /// Record stage 2's decision about every node: selected when published, an irretrievable
    /// redaction when withheld, and otherwise left behind `residual`. Returns whether any node
    /// was left behind `residual`.
    fn record_decisions(&self, accounting: &mut Accounting, kept: &NameSet, residual: &ExpansionQuery) -> (used: bool)
        requires
            old(accounting).candidates() == order_entries(self.order_spec()),
            names_ascending(order_entries(self.order_spec())),
            old(accounting).decisions() == Seq::new(self.order_spec().listing().len(), |i: int| Decision::Open),
        ensures
            final(accounting).candidates() == old(accounting).candidates(),
            final(accounting).decisions() == slice_decisions(
                self.order_spec(),
                kept.contents(),
                self.policy_spec()@.dom(),
                self.order_spec().declared_completeness().drop_reason(),
                (residual.relation_spec(), residual.anchor_spec()),
            ),
            used == exists|q: int| {
                &&& 0 <= q < self.order_spec().listing().len()
                &&& !kept.contents().contains(#[trigger] self.order_spec().listing()[q])
                &&& !self.policy_spec()@.dom().contains(self.order_spec().listing()[q])
            },
    {
        let ghost entries = order_entries(self.order_spec());
        let ghost listing = self.order_spec().listing();
        let ghost target = slice_decisions(
            self.order_spec(),
            kept.contents(),
            self.policy_spec()@.dom(),
            self.order_spec().declared_completeness().drop_reason(),
            (residual.relation_spec(), residual.anchor_spec()),
        );
        let nodes = self.order.nodes();
        let reason = self.order.completeness().omission_reason();
        let n = nodes.len();
        let mut used = false;
        let mut i: usize = 0;
        while i < n
            invariant
                n == nodes@.len(),
                spelled(nodes@) == listing,
                listing == self.order_spec().listing(),
                entries == order_entries(self.order_spec()),
                names_ascending(entries),
                reason == self.order_spec().declared_completeness().drop_reason(),
                target == slice_decisions(
                    self.order_spec(),
                    kept.contents(),
                    self.policy_spec()@.dom(),
                    reason,
                    (residual.relation_spec(), residual.anchor_spec()),
                ),
                i <= n,
                accounting.candidates() == entries,
                accounting.decisions() == Seq::new(n as nat, |q: int| if q < i { target[q] } else { Decision::Open }),
                used == exists|q: int| {
                    &&& 0 <= q < i
                    &&& !kept.contents().contains(#[trigger] listing[q])
                    &&& !self.policy_spec()@.dom().contains(listing[q])
                },
            decreases n - i,
        {
            let id = &nodes[i];
            let ghost before = accounting.decisions();
            proof {
                assert(id@ == listing[i as int]);
                assert(entries[i as int].0 == id@);
            }
            if kept.contains(id) {
                let outcome = accounting.select(id);
                proof {
                    lemma_decide_at(entries, before, i as int, Decision::Selected, accounting.decisions(), outcome);
                    assert(accounting.decisions() =~= Seq::new(n as nat, |q: int| if q < i + 1 { target[q] } else { Decision::Open }));
                }
            } else if self.policy.withholds(id) {
                let omitted = Omitted::Irretrievable(IrretrievableReason::Redaction);
                let outcome = accounting.omit(id, omitted);
                proof {
                    lemma_decide_at(entries, before, i as int, Decision::Omitted(omitted.placement()), accounting.decisions(), outcome);
                    assert(accounting.decisions() =~= Seq::new(n as nat, |q: int| if q < i + 1 { target[q] } else { Decision::Open }));
                }
            } else {
                let omitted = Omitted::Expandable { reason, query: residual.clone() };
                let ghost placement = omitted.placement();
                let outcome = accounting.omit(id, omitted);
                used = true;
                proof {
                    lemma_decide_at(entries, before, i as int, Decision::Omitted(placement), accounting.decisions(), outcome);
                    assert(accounting.decisions() =~= Seq::new(n as nat, |q: int| if q < i + 1 { target[q] } else { Decision::Open }));
                    assert(!kept.contents().contains(listing[i as int]));
                }
            }
            i = i + 1;
        }
        proof {
            assert(accounting.decisions() =~= target);
        }
        used
    }
}

impl CausalCompile {
    /// Run the pre-pass, stage 1 and stage 2.
    ///
    /// `roots` is stage 1's output; `residual` is the expansion query that retrieves what
    /// stage 2 leaves behind, and its anchor must be published whenever anything is left
    /// behind it. Refuses, in this order: the first root in canonical order that is not a
    /// node or that policy withholds; an order larger than an exact count can name; and a
    /// residual query nothing published anchors.
    pub fn run(&self, roots: &NameSet, residual: &ExpansionQuery) -> (compiled: Result<Compilation, CompileError>)
        ensures
            !self.roots_accepted(roots.listing()) ==> exists|k: int| {
                &&& 0 <= k < roots.listing().len()
                &&& root_refused(self.order_spec().graph(), self.policy_spec()@.dom(), roots.listing()[k])
                &&& forall|m: int| 0 <= m < k ==> !root_refused(
                    self.order_spec().graph(),
                    self.policy_spec()@.dom(),
                    #[trigger] roots.listing()[m],
                )
                &&& (match compiled {
                    Err(CompileError::Causal(CausalError::UnknownEndpoint { id })) => id@ == roots.listing()[k]
                        && !self.order_spec().graph().dom().contains(id@),
                    Err(CompileError::RedactedRoot { id, reason }) => id@ == roots.listing()[k]
                        && self.order_spec().graph().dom().contains(id@)
                        && self.policy_spec()@.dom().contains(id@) && reason == self.policy_spec()@[id@],
                    _ => false,
                })
            },
            self.roots_accepted(roots.listing()) && self.order_spec().listing().len() > u32::MAX
                ==> compiled matches Err(CompileError::Accounting(_)),
            self.roots_accepted(roots.listing()) && self.order_spec().listing().len() <= u32::MAX
                && self.leaves_residual(roots.contents()) && !self.kept(roots.contents()).contains(residual.anchor_spec())
                ==> (match compiled {
                    Err(CompileError::AnchorNotSelected { anchor }) => anchor@ == residual.anchor_spec(),
                    _ => false,
                }),
            self.roots_accepted(roots.listing()) && self.order_spec().listing().len() <= u32::MAX
                && !(self.leaves_residual(roots.contents()) && !self.kept(roots.contents()).contains(residual.anchor_spec()))
                ==> (match compiled {
                    Ok(c) => {
                        let entries = order_entries(self.order_spec());
                        let decisions = self.decisions_for(roots.contents(), (residual.relation_spec(), residual.anchor_spec()));
                        let cells = omitted_cells(entries, decisions);
                        &&& c.ledger().count() == self.order_spec().listing().len()
                        &&& c.ledger().selection() == chosen(entries, decisions)
                        &&& strictly_ascending(c.ledger().selection())
                        &&& c.ledger().selection().to_set() == self.kept(roots.contents())
                        &&& partitions(c.ledger().records())
                        &&& forall|k: int| 0 <= k < cells.len() ==> #[trigger] covers(c.ledger().records(), cells[k])
                        &&& forall|p: int| 0 <= p < c.ledger().records().len()
                            ==> cells.contains(#[trigger] c.ledger().records()[p].cell())
                        &&& forall|p: int| 0 <= p < c.ledger().records().len() ==> #[trigger] c.ledger().records()[p].tally()
                            == occurrences(cells, c.ledger().records()[p].cell(), cells.len() as int)
                        &&& c.ledger().reconciles()
                        &&& c.gap() == self.gap_of(roots.contents())
                        &&& closure_report(self.order_spec().graph(), self.kept(roots.contents()), c.ledger().selection(), c.violation())
                        &&& (c.violation() is None <==> self.gap_of(roots.contents()) == Set::<Seq<char>>::empty())
                        &&& lists_in_schema_order(
                            c.established(),
                            if c.violation() is None {
                                Set::<Guarantee>::empty().insert(Guarantee::CausallyClosed)
                            } else {
                                Set::<Guarantee>::empty()
                            },
                        )
                    },
                    _ => false,
                }),
    {
        let ghost graph = self.order_spec().graph();
        let ghost withheld = self.policy_spec()@.dom();
        if let Some(refusal) = self.refused_root(roots) {
            return Err(refusal);
        }
        proof {
            assert forall|x: Seq<char>| roots.contents().contains(x) implies graph.dom().contains(x) && !withheld.contains(x) by {
                let k = choose|k: int| 0 <= k < roots.listing().len() && roots.listing()[k] == x;
                assert(!root_refused(graph, withheld, roots.listing()[k]));
            }
        }
        let closure = match self.order.backward_closure(roots) {
            Ok(closure) => closure,
            Err(error) => {
                proof { assert(false); }
                return Err(CompileError::Causal(error));
            },
        };
        proof {
            law_backward_closure_is_unique(graph, roots.contents(), closure.contents(), closure.contents());
            crate::compile::law_redaction_gap_costs_closure(graph, roots.contents(), withheld);
        }
        let (kept, gap) = self.split_slice(&closure);
        let violation = self.order.closure_violation(&kept);
        let members = kept.members();
        proof {
            lemma_report_none_iff_closed(graph, kept.contents(), kept.listing(), violation);
        }
        let mut guarantees = GuaranteeSet::empty();
        if violation.is_none() {
            guarantees.claim(License::issue(Guarantee::CausallyClosed));
        }
        let entries = self.ledger_entries();
        let ghost listed = entries_of(entries@);
        let set = match CandidateSet::new(entries) {
            Ok(set) => set,
            Err(error) => {
                proof {
                    let j = choose|j: int| 0 <= j < listed.len() && crate::accounting::repeats_earlier(listed, j);
                    let i = choose|i: int| 0 <= i < j && #[trigger] listed[i].0 == listed[j].0;
                    lemma_names_unique(listed, i, j);
                }
                return Err(CompileError::Accounting(error));
            },
        };
        proof {
            lemma_sorted_input_kept(listed, set.entries());
        }
        let mut accounting = Accounting::over(set);
        let used = self.record_decisions(&mut accounting, &kept, residual);
        let ghost ledger_entries = accounting.candidates();
        let ghost decisions = accounting.decisions();
        let ghost cells = omitted_cells(ledger_entries, decisions);
        proof {
            let n = ledger_entries.len() as int;
            assert forall|k: int| 0 <= k < n implies !(#[trigger] decisions[k] is Open) by {}
            lemma_nothing_pending(ledger_entries, decisions, n);
            lemma_dispositions_partition(ledger_entries, decisions, n);
            if n <= u32::MAX {
                assert forall|i: int| 0 <= i < cells.len() implies !crowds_cell(cells, i) by {
                    crate::accounting::lemma_occurrences_bounded(cells, cells[i], i + 1);
                }
            }
            assert(decisions == self.decisions_for(roots.contents(), (residual.relation_spec(), residual.anchor_spec())));
        }
        let closed = match accounting.close() {
            Ok(closed) => closed,
            Err(error) => {
                return Err(CompileError::Accounting(error));
            },
        };
        match closed.reconcile() {
            Ok(()) => {},
            Err(error) => {
                proof { assert(false); }
                return Err(CompileError::Accounting(error));
            },
        }
        proof {
            assert(used == self.leaves_residual(roots.contents())) by {
                if used {
                    let q = choose|q: int| {
                        &&& 0 <= q < self.order_spec().listing().len()
                        &&& !kept.contents().contains(#[trigger] self.order_spec().listing()[q])
                        &&& !withheld.contains(self.order_spec().listing()[q])
                    };
                    let x = self.order_spec().listing()[q];
                    assert(self.order_spec().listing().to_set().contains(x));
                    assert(graph.dom().contains(x));
                }
                if self.leaves_residual(roots.contents()) {
                    let x = choose|x: Seq<char>| {
                        &&& #[trigger] graph.dom().contains(x)
                        &&& !self.slice(roots.contents()).contains(x)
                        &&& !withheld.contains(x)
                    };
                    assert(self.order_spec().listing().to_set().contains(x));
                    let q = choose|q: int| 0 <= q < self.order_spec().listing().len() && self.order_spec().listing()[q] == x;
                    assert(!kept.contents().contains(self.order_spec().listing()[q]));
                }
            }
        }
        if used && !kept.contains(residual.anchor()) {
            return Err(CompileError::AnchorNotSelected { anchor: residual.anchor().clone() });
        }
        let sealed = match guarantees.seal() {
            Ok(sealed) => sealed,
            Err(_) => {
                proof { assert(false); }
                return Err(CompileError::Unreachable);
            },
        };
        proof {
            lemma_chosen_listing(ledger_entries, decisions, ledger_entries.len() as int);
            let selection = chosen(ledger_entries, decisions);
            assert forall|x: Seq<char>| selection.to_set().contains(x) <==> kept.contents().contains(x) by {
                if selection.contains(x) {
                    let q = choose|q: int| 0 <= q < ledger_entries.len() && #[trigger] ledger_entries[q].0 == x
                        && decisions[q] is Selected;
                }
                if kept.contents().contains(x) {
                    assert(closure.contents().contains(x));
                    assert(graph.dom().contains(x));
                    assert(self.order_spec().listing().to_set().contains(x));
                    let q = choose|q: int| 0 <= q < self.order_spec().listing().len() && self.order_spec().listing()[q] == x;
                    assert(ledger_entries[q].0 == x);
                    assert(decisions[q] is Selected);
                }
            }
            assert(selection.to_set() =~= kept.contents());
            crate::name::lemma_ascending_unique(selection, kept.listing());
        }
        Ok(Compilation { accounting: closed, guarantees: sealed, closure_violation: violation, redaction_gap: gap })
    }
}

/// A redaction gap costs exactly the closure guarantee: the slice minus what policy withholds
/// is downward-closed if and only if policy withholds nothing the slice needed.
pub proof fn law_redaction_gap_costs_closure(graph: Graph, roots: Set<Seq<char>>, withheld: Set<Seq<char>>)
    requires
        roots.subset_of(graph.dom()),
        roots.disjoint(withheld),
        exists|closed: Set<Seq<char>>| is_backward_closure(graph, roots, closed),
    ensures
        downward_closed(graph, closure_of(graph, roots).difference(withheld))
            <==> closure_of(graph, roots).intersect(withheld) == Set::<Seq<char>>::empty(),
{
    let closed = closure_of(graph, roots);
    let kept = closed.difference(withheld);
    if downward_closed(graph, kept) {
        assert(roots.subset_of(kept));
        assert(closed.subset_of(kept));
        assert(closed.intersect(withheld) =~= Set::<Seq<char>>::empty());
    }
    if closed.intersect(withheld) == Set::<Seq<char>>::empty() {
        assert forall|x: Seq<char>| closed.contains(x) implies !withheld.contains(x) by {
            assert(!closed.intersect(withheld).contains(x));
        }
        assert(kept =~= closed);
    }
}


impl CompileError {
    /// The refusal's explanation.
    pub open spec fn explanation(&self) -> Seq<char> {
        match self {
            CompileError::RedactedRoot { id, reason } =>
                "the root `"@ + id@ + "` is withheld ("@ + reason.wire()
                    + "); a redacted root is not a root, and slicing from one leaks the shape of what it dropped"@,
            CompileError::Causal(error) => error.explanation(),
            CompileError::AnchorNotSelected { anchor } =>
                "the residual expansion query anchors at `"@ + anchor@
                    + "`, which this pack does not publish; expansion is navigation over a published pack"@,
            CompileError::Accounting(error) => error.explanation(),
            CompileError::Unreachable => "a guarantee set this stage group cannot build was refused"@,
        }
    }

    /// The refusal's explanation.
    pub fn message(&self) -> (text: String)
        ensures
            text@ == self.explanation(),
    {
        let mut out = String::new();
        match self {
            CompileError::RedactedRoot { id, reason } => {
                crate::json::write_raw(&mut out, "the root `");
                crate::json::write_raw(&mut out, id.as_str());
                crate::json::write_raw(&mut out, "` is withheld (");
                crate::json::write_raw(&mut out, reason.as_wire_str());
                crate::json::write_raw(&mut out,
                    "); a redacted root is not a root, and slicing from one leaks the shape of what it dropped");
            },
            CompileError::Causal(error) => {
                let inner = error.message();
                crate::json::write_raw(&mut out, inner.as_str());
            },
            CompileError::AnchorNotSelected { anchor } => {
                crate::json::write_raw(&mut out, "the residual expansion query anchors at `");
                crate::json::write_raw(&mut out, anchor.as_str());
                crate::json::write_raw(&mut out,
                    "`, which this pack does not publish; expansion is navigation over a published pack");
            },
            CompileError::Accounting(error) => {
                let inner = error.message();
                crate::json::write_raw(&mut out, inner.as_str());
            },
            CompileError::Unreachable => {
                crate::json::write_raw(&mut out, "a guarantee set this stage group cannot build was refused");
            },
        }
        proof { assert(out@ =~= self.explanation()); }
        out
    }
}

} // verus!
