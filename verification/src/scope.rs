//! Stage 6's checker: whether an observer-scoped reduction is justified by the named
//! observers, decided from the projection, the order and the reduction alone.

use vstd::prelude::*;

use crate::causal::{
    closure_of, closure_report, downward_closed, is_backward_closure, CausalOrder, ClosureViolation, Graph,
};
use crate::json::{decimal, write_decimal, write_raw};
use crate::name::{lemma_precedes_order, precedes, spelled, Name, NameSet};
use crate::observer::{
    law_observer_filter_keeps_its_seeds, law_observer_filter_preserves_closure, observer_seeds, text_ascending,
    ObserverProjection, ProjectionApplicability, ProjectionInapplicable,
};
use crate::property::least_of;

verus! {

/// One observer-scoped reduction: the slice before, the slice after, and what the property
/// protects.
#[derive(Debug, PartialEq, Eq)]
pub struct ScopeReduction {
    before: NameSet,
    after: NameSet,
    protected: NameSet,
}

impl ScopeReduction {
    /// The slice before the reduction.
    pub closed spec fn before_set(&self) -> Set<Seq<char>> {
        self.before.contents()
    }

    /// The slice after the reduction.
    pub closed spec fn after_set(&self) -> Set<Seq<char>> {
        self.after.contents()
    }

    /// The slice after the reduction, in canonical order.
    pub closed spec fn after_listing(&self) -> Seq<Seq<char>> {
        self.after.listing()
    }

    /// What the property protects.
    pub closed spec fn protected_set(&self) -> Set<Seq<char>> {
        self.protected.contents()
    }

    /// The reduction from `before` to `after`, under the protection of `protected`.
    pub fn new(before: NameSet, after: NameSet, protected: NameSet) -> (reduction: ScopeReduction)
        ensures
            reduction.before_set() == before.contents(),
            reduction.after_set() == after.contents(),
            reduction.after_listing() == after.listing(),
            reduction.protected_set() == protected.contents(),
    {
        ScopeReduction { before, after, protected }
    }

    /// The slice before the reduction.
    pub fn before(&self) -> (before: &NameSet)
        ensures
            before.contents() == self.before_set(),
    {
        &self.before
    }

    /// The slice after the reduction.
    pub fn after(&self) -> (after: &NameSet)
        ensures
            after.contents() == self.after_set(),
            after.listing() == self.after_listing(),
    {
        &self.after
    }

    /// What the property protects.
    pub fn protected(&self) -> (protected: &NameSet)
        ensures
            protected.contents() == self.protected_set(),
    {
        &self.protected
    }

    /// What the reduction removed.
    pub fn dropped(&self) -> (dropped: NameSet)
        ensures
            dropped.contents() == self.before_set().difference(self.after_set()),
    {
        self.before.difference(&self.after)
    }

    /// What the reduction added: a narrowing adds nothing.
    pub fn added(&self) -> (added: NameSet)
        ensures
            added.contents() == self.after_set().difference(self.before_set()),
    {
        self.after.difference(&self.before)
    }

    /// Whether the reduction changed nothing.
    pub fn is_identity(&self) -> (identity: bool)
        ensures
            identity == (self.before_set() == self.after_set()),
    {
        self.before.same_set(&self.after)
    }
}

/// How an observer-scoped reduction fails to be justified.
#[derive(Debug, PartialEq, Eq)]
pub enum ScopeViolation {
    /// The output holds a candidate the input did not.
    CandidateAdded {
        /// The first added candidate, in canonical order.
        id: Name,
    },
    /// Something was dropped under a projection that does not apply.
    VacuousReduction {
        /// The first dropped candidate, in canonical order.
        id: Name,
        /// Why the projection does not apply.
        reason: ProjectionInapplicable,
    },
    /// A candidate the property protects was dropped.
    ProtectedCandidateDropped {
        /// The dropped candidate.
        id: Name,
    },
    /// A candidate a named observer publishes was dropped.
    ObservedCandidateDropped {
        /// The dropped candidate.
        id: Name,
        /// The first observer publishing it, in the order of text.
        observer: Name,
    },
    /// A candidate whose observability was never declared was dropped.
    UnattributedCandidateDropped {
        /// The dropped candidate.
        id: Name,
    },
    /// The output is not downward closed.
    NotCausallyClosed(ClosureViolation),
}

/// What the audit concluded about one reduction.
#[derive(Debug, PartialEq, Eq)]
pub enum ScopeVerdict {
    /// Every drop is justified relative to the named observers, listed in the order of text.
    Justified {
        /// The observers that publish some candidate of the order.
        observers: Vec<Name>,
    },
    /// The reduction is not justified, and why.
    Unjustified(ScopeViolation),
    /// The projection does not apply, and nothing was dropped.
    Inapplicable(ProjectionInapplicable),
}

impl ScopeVerdict {
    /// Whether the reduction is justified.
    pub fn is_justified(&self) -> (justified: bool)
        ensures
            justified == (self is Justified),
    {
        matches!(self, ScopeVerdict::Justified { .. })
    }

    /// The verdict's stable token.
    pub open spec fn token(&self) -> Seq<char> {
        match self {
            ScopeVerdict::Justified { .. } => "scope-justified"@,
            ScopeVerdict::Unjustified(_) => "scope-unjustified"@,
            ScopeVerdict::Inapplicable(_) => "scope-inapplicable"@,
        }
    }

    /// The verdict's stable token.
    pub fn as_str(&self) -> (text: &'static str)
        ensures
            text@ == self.token(),
    {
        match self {
            ScopeVerdict::Justified { .. } => "scope-justified",
            ScopeVerdict::Unjustified(_) => "scope-unjustified",
            ScopeVerdict::Inapplicable(_) => "scope-inapplicable",
        }
    }
}

/// Whether a dropped candidate needs more justification than the projection gives: the
/// property protects it, a named observer publishes it, or its observability was never
/// declared.
pub open spec fn offends(projection: ObserverProjection, protected: Set<Seq<char>>, x: Seq<char>) -> bool {
    protected.contains(x) || projection.publishes_spec(x) || !projection.attribution().dom().contains(x)
}

/// Whether `o` is the first member of `set` in the order of text.
pub open spec fn text_least(set: Set<Seq<char>>, o: Seq<char>) -> bool {
    set.contains(o) && forall|y: Seq<char>| set.contains(y) ==> !crate::name::text_precedes(y, o)
}

/// Whether `verdict` names the drop of `x` for the first reason that applies: protected,
/// then published (naming its first observer), then undeclared.
pub open spec fn names_offence(projection: ObserverProjection, protected: Set<Seq<char>>, x: Seq<char>, verdict: ScopeVerdict) -> bool {
    if protected.contains(x) {
        verdict matches ScopeVerdict::Unjustified(ScopeViolation::ProtectedCandidateDropped { id }) && id@ == x
    } else if projection.publishes_spec(x) {
        verdict matches ScopeVerdict::Unjustified(ScopeViolation::ObservedCandidateDropped { id, observer })
            && id@ == x && text_least(projection.observers_of_spec(x), observer@)
    } else {
        verdict matches ScopeVerdict::Unjustified(ScopeViolation::UnattributedCandidateDropped { id }) && id@ == x
    }
}

/// What the audit concludes about a reduction from `before` to `after` under `protected`.
pub open spec fn audit_answer(
    projection: ObserverProjection,
    graph: Graph,
    before: Set<Seq<char>>,
    after: Set<Seq<char>>,
    after_listing: Seq<Seq<char>>,
    protected: Set<Seq<char>>,
    verdict: ScopeVerdict,
) -> bool {
    let added = after.difference(before);
    let dropped = before.difference(after);
    let offending = dropped.filter(|x: Seq<char>| offends(projection, protected, x));
    if added != Set::<Seq<char>>::empty() {
        verdict matches ScopeVerdict::Unjustified(ScopeViolation::CandidateAdded { id }) && least_of(added, id@)
    } else if projection.applicability_of(graph) is Inapplicable {
        let reason = projection.applicability_of(graph)->Inapplicable_0;
        if dropped == Set::<Seq<char>>::empty() {
            verdict == ScopeVerdict::Inapplicable(reason)
        } else {
            verdict matches ScopeVerdict::Unjustified(ScopeViolation::VacuousReduction { id, reason: r })
                && r == reason && least_of(dropped, id@)
        }
    } else if offending != Set::<Seq<char>>::empty() {
        exists|x: Seq<char>| #[trigger] least_of(offending, x) && names_offence(projection, protected, x, verdict)
    } else if !(after.subset_of(graph.dom()) && downward_closed(graph, after)) {
        verdict matches ScopeVerdict::Unjustified(ScopeViolation::NotCausallyClosed(v))
            && closure_report(graph, after, after_listing, Some(v))
    } else {
        verdict matches ScopeVerdict::Justified { observers }
            && spelled(observers@).to_set() == projection.engaged_set(graph)
            && text_ascending(spelled(observers@))
    }
}

/// Stage 6's checker, over one projection.
#[derive(Debug, PartialEq, Eq)]
pub struct ScopeAudit {
    projection: ObserverProjection,
}

impl ScopeAudit {
    /// The projection the audit holds reductions to.
    pub closed spec fn premise(&self) -> ObserverProjection {
        self.projection
    }

    /// An audit against `projection`.
    pub fn over(projection: ObserverProjection) -> (audit: ScopeAudit)
        ensures
            audit.premise() == projection,
    {
        ScopeAudit { projection }
    }

    /// The projection the audit holds reductions to.
    pub fn projection(&self) -> (projection: &ObserverProjection)
        ensures
            *projection == self.premise(),
    {
        &self.projection
    }

    /// Whether `reduction` of a slice of `order` is justified: it adds nothing; it drops
    /// nothing under a projection that does not apply; every drop is of a candidate the
    /// property does not protect, no named observer publishes, and whose observability was
    /// declared; and what is left is downward closed.
    pub fn verdict(&self, order: &CausalOrder, reduction: &ScopeReduction) -> (verdict: ScopeVerdict)
        ensures
            audit_answer(self.premise(), order.graph(), reduction.before_set(), reduction.after_set(),
                reduction.after_listing(), reduction.protected_set(), verdict),
    {
        let ghost projection = self.projection;
        let added = reduction.added();
        match added.first() {
            Some(id) => return ScopeVerdict::Unjustified(ScopeViolation::CandidateAdded { id: id.clone() }),
            None => {},
        }
        let dropped = reduction.dropped();
        match self.projection.applicability(order) {
            ProjectionApplicability::Inapplicable(reason) => {
                return match dropped.first() {
                    None => ScopeVerdict::Inapplicable(reason),
                    Some(id) => ScopeVerdict::Unjustified(ScopeViolation::VacuousReduction { id: id.clone(), reason }),
                };
            },
            ProjectionApplicability::Applicable => {},
        }
        let protected = reduction.protected();
        let members = dropped.members();
        let ghost offending = dropped.contents().filter(|x: Seq<char>| offends(projection, protected.contents(), x));
        let mut k: usize = 0;
        while k < members.len()
            invariant
                projection == self.projection,
                reduction.after_set().difference(reduction.before_set()) == Set::<Seq<char>>::empty(),
                projection.applicability_of(order.graph()) == ProjectionApplicability::Applicable,
                dropped.contents() == reduction.before_set().difference(reduction.after_set()),
                spelled(members@) == dropped.listing(),
                crate::name::strictly_ascending(dropped.listing()),
                protected.contents() == reduction.protected_set(),
                offending == dropped.contents().filter(|x: Seq<char>| offends(projection, protected.contents(), x)),
                k <= members@.len(),
                forall|m: int| 0 <= m < k ==> !offends(projection, protected.contents(), #[trigger] dropped.listing()[m]),
            decreases members@.len() - k,
        {
            let id = &members[k];
            let ghost x = id@;
            proof { assert(dropped.listing()[k as int] == x); }
            let observers = self.projection.observers_of(id);
            let is_protected = protected.contains(id);
            let attributed = self.projection.is_attributed(id);
            let offence = if is_protected {
                Some(ScopeViolation::ProtectedCandidateDropped { id: id.clone() })
            } else if observers.len() > 0 {
                proof {
                    assert(spelled(observers@)[0] == observers@[0]@);
                    assert(spelled(observers@).to_set().contains(observers@[0]@));
                }
                Some(ScopeViolation::ObservedCandidateDropped { id: id.clone(), observer: observers[0].clone() })
            } else if !attributed {
                Some(ScopeViolation::UnattributedCandidateDropped { id: id.clone() })
            } else {
                None
            };
            proof {
                if observers@.len() == 0 {
                    assert(spelled(observers@).to_set() =~= Set::<Seq<char>>::empty());
                } else {
                    assert(spelled(observers@)[0] == observers@[0]@);
                    assert(spelled(observers@).to_set().contains(observers@[0]@));
                }
            }
            match offence {
                Some(violation) => {
                    let verdict = ScopeVerdict::Unjustified(violation);
                    proof {
                        assert(offends(projection, protected.contents(), x));
                        assert(dropped.contents().contains(x)) by {
                            assert(dropped.listing()[k as int] == x);
                        }
                        assert(least_of(offending, x)) by {
                            assert forall|y: Seq<char>| offending.contains(y) implies !precedes(y, x) by {
                                let q = choose|q: int| 0 <= q < dropped.listing().len() && dropped.listing()[q] == y;
                                lemma_precedes_order(y, x, y);
                                if q > k {
                                    assert(precedes(dropped.listing()[k as int], dropped.listing()[q]));
                                }
                            }
                        }
                        if !is_protected && observers@.len() > 0 {
                            let listed = spelled(observers@);
                            assert forall|y: Seq<char>| projection.observers_of_spec(x).contains(y)
                                implies !crate::name::text_precedes(y, observers@[0]@) by {
                                let q = choose|q: int| 0 <= q < listed.len() && listed[q] == y;
                                crate::name::lemma_text_order(y, listed[0], y);
                                if q > 0 {
                                    assert(crate::name::text_precedes(listed[0], listed[q]));
                                }
                            }
                        }
                        assert(names_offence(projection, protected.contents(), x, verdict));
                    }
                    return verdict;
                },
                None => {},
            }
            k = k + 1;
        }
        proof {
            assert(offending =~= Set::<Seq<char>>::empty()) by {
                assert forall|y: Seq<char>| !offending.contains(y) by {
                    if offending.contains(y) {
                        let q = choose|q: int| 0 <= q < dropped.listing().len() && dropped.listing()[q] == y;
                        assert(!offends(projection, protected.contents(), dropped.listing()[q]));
                    }
                }
            }
        }
        match order.closure_violation(reduction.after()) {
            Some(violation) => return ScopeVerdict::Unjustified(ScopeViolation::NotCausallyClosed(violation)),
            None => {},
        }
        ScopeVerdict::Justified { observers: self.projection.engaged_observers(order) }
    }
}


/// The filter's own output is justified: over a causally closed slice of the order, under a
/// projection that applies, the audit accepts the reduction from the slice to what the
/// filter keeps of it.
pub proof fn law_filter_output_is_justified(
    projection: ObserverProjection,
    graph: Graph,
    before: Set<Seq<char>>,
    protected: Set<Seq<char>>,
    after_listing: Seq<Seq<char>>,
    verdict: ScopeVerdict,
)
    requires
        before.subset_of(graph.dom()),
        downward_closed(graph, before),
        projection.applicability_of(graph) == ProjectionApplicability::Applicable,
        exists|c: Set<Seq<char>>| is_backward_closure(graph,
            observer_seeds(before, protected, projection.attribution().dom(), projection.published_set()), c),
        audit_answer(projection, graph, before,
            closure_of(graph, observer_seeds(before, protected, projection.attribution().dom(), projection.published_set())).intersect(before),
            after_listing, protected, verdict),
    ensures
        verdict is Justified,
{
    let seeds = observer_seeds(before, protected, projection.attribution().dom(), projection.published_set());
    let after = closure_of(graph, seeds).intersect(before);
    law_observer_filter_keeps_its_seeds(graph, before, protected, projection.attribution().dom(), projection.published_set());
    law_observer_filter_preserves_closure(graph, before, protected, projection.attribution().dom(), projection.published_set());
    assert(after.difference(before) =~= Set::<Seq<char>>::empty());
    let dropped = before.difference(after);
    let offending = dropped.filter(|x: Seq<char>| offends(projection, protected, x));
    assert forall|x: Seq<char>| !offending.contains(x) by {
        if offending.contains(x) {
            assert(seeds.contains(x)) by {
                if !projection.attribution().dom().contains(x) {
                } else if protected.contains(x) {
                } else {
                    assert(projection.published_set().contains(x));
                }
            }
        }
    }
    assert(offending =~= Set::<Seq<char>>::empty());
    assert(after.subset_of(graph.dom()));
}


impl ScopeViolation {
    /// How the reduction fails to be justified, as a sentence.
    pub open spec fn explanation(&self) -> Seq<char> {
        match self {
            ScopeViolation::CandidateAdded { id } =>
                "`"@ + id@ + "` is in the projection's output and not in its input; observer projection is a narrowing"@,
            ScopeViolation::VacuousReduction { id, reason } =>
                "`"@ + id@ + "` was dropped although "@ + reason.explanation() + "; a reduction justified by nothing is not justified"@,
            ScopeViolation::ProtectedCandidateDropped { id } =>
                "`"@ + id@ + "` is in scope for the property and was dropped by observer projection; no observer publishing it is not a ground for excluding it"@,
            ScopeViolation::ObservedCandidateDropped { id, observer } =>
                "`"@ + id@ + "` is published by the named observer `"@ + observer@
                    + "` and was dropped; the reduction contradicts the observer it claims to be justified against"@,
            ScopeViolation::UnattributedCandidateDropped { id } =>
                "`"@ + id@ + "` has no declared observability and was dropped; a reduction must be justified relative to a named observer, and nothing justifies this one"@,
            ScopeViolation::NotCausallyClosed(violation) =>
                violation.explanation() + "; observer projection runs after slicing and may not break the closure slicing licensed"@,
        }
    }

    /// How the reduction fails to be justified, as a sentence.
    pub fn message(&self) -> (text: String)
        ensures
            text@ == self.explanation(),
    {
        let mut out = String::new();
        match self {
            ScopeViolation::CandidateAdded { id } => {
                write_raw(&mut out, "`");
                write_raw(&mut out, id.as_str());
                write_raw(&mut out, "` is in the projection's output and not in its input; observer projection is a narrowing");
            },
            ScopeViolation::VacuousReduction { id, reason } => {
                write_raw(&mut out, "`");
                write_raw(&mut out, id.as_str());
                write_raw(&mut out, "` was dropped although ");
                let inner = reason.message();
                write_raw(&mut out, inner.as_str());
                write_raw(&mut out, "; a reduction justified by nothing is not justified");
            },
            ScopeViolation::ProtectedCandidateDropped { id } => {
                write_raw(&mut out, "`");
                write_raw(&mut out, id.as_str());
                write_raw(&mut out,
                    "` is in scope for the property and was dropped by observer projection; no observer publishing it is not a ground for excluding it");
            },
            ScopeViolation::ObservedCandidateDropped { id, observer } => {
                write_raw(&mut out, "`");
                write_raw(&mut out, id.as_str());
                write_raw(&mut out, "` is published by the named observer `");
                write_raw(&mut out, observer.as_str());
                write_raw(&mut out, "` and was dropped; the reduction contradicts the observer it claims to be justified against");
            },
            ScopeViolation::UnattributedCandidateDropped { id } => {
                write_raw(&mut out, "`");
                write_raw(&mut out, id.as_str());
                write_raw(&mut out,
                    "` has no declared observability and was dropped; a reduction must be justified relative to a named observer, and nothing justifies this one");
            },
            ScopeViolation::NotCausallyClosed(violation) => {
                let inner = violation.message();
                write_raw(&mut out, inner.as_str());
                write_raw(&mut out, "; observer projection runs after slicing and may not break the closure slicing licensed");
            },
        }
        proof { assert(out@ =~= self.explanation()); }
        out
    }
}

impl ScopeVerdict {
    /// What the audit concluded, as a sentence.
    pub open spec fn explanation(&self) -> Seq<char> {
        match self {
            ScopeVerdict::Justified { observers } =>
                "the reduction is justified relative to "@ + decimal(observers@.len()) + " named observer(s)"@,
            ScopeVerdict::Unjustified(violation) => violation.explanation(),
            ScopeVerdict::Inapplicable(reason) => reason.explanation(),
        }
    }

    /// What the audit concluded, as a sentence.
    pub fn message(&self) -> (text: String)
        ensures
            text@ == self.explanation(),
    {
        match self {
            ScopeVerdict::Justified { observers } => {
                let mut out = String::new();
                write_raw(&mut out, "the reduction is justified relative to ");
                write_decimal(&mut out, observers.len() as u64);
                write_raw(&mut out, " named observer(s)");
                proof { assert(out@ =~= self.explanation()); }
                out
            },
            ScopeVerdict::Unjustified(violation) => violation.message(),
            ScopeVerdict::Inapplicable(reason) => reason.message(),
        }
    }
}

} // verus!
