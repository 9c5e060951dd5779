//! Stage 3's independent property monitor: the vocabulary of its inapplicability.

use vstd::prelude::*;

use crate::causal::{canonical_order, closure_report, downward_closed, ClosureViolation, CausalOrder, Graph};
use crate::name::{spelled, Name, NameSet};
use crate::property::{final_state, least_of, observed_in, step, AutomatonVerdict, PropertyAutomaton, Table};

verus! {

/// Why the preservation check does not apply to an execution.
#[derive(Debug, Clone, Copy, PartialEq, Eq, Hash, PartialOrd, Ord, Structural)]
pub enum Inapplicable {
    /// The automaton declares no transitions, so it observes nothing anywhere.
    EmptyAlphabet,
    /// No candidate of this causal order is in the automaton's alphabet.
    NoObservedEvent,
}

impl Inapplicable {
    /// Every member, in declaration order.
    pub const ALL: [Inapplicable; 2] = [
        Inapplicable::EmptyAlphabet,
        Inapplicable::NoObservedEvent,
    ];

    /// The member's position in declaration order.
    pub open spec fn rank(self) -> int {
        match self {
            Inapplicable::EmptyAlphabet => 0,
            Inapplicable::NoObservedEvent => 1,
        }
    }

    /// `ALL` lists every member at its rank.
    pub proof fn lemma_all_lists(member: Inapplicable)
        ensures
            0 <= member.rank() < 2,
            Inapplicable::ALL@[member.rank()] == member,
    {
    }

    /// The member's stable token.
    pub open spec fn token(self) -> Seq<char> {
        match self {
            Inapplicable::EmptyAlphabet => "empty-alphabet"@,
            Inapplicable::NoObservedEvent => "no-observed-event"@,
        }
    }

    /// The member's stable token.
    pub fn as_str(self) -> (text: &'static str)
        ensures
            text@ == self.token(),
    {
        match self {
            Inapplicable::EmptyAlphabet => "empty-alphabet",
            Inapplicable::NoObservedEvent => "no-observed-event",
        }
    }

    /// The token's length and the characters that tell members' tokens apart.
    pub open spec fn signature(self) -> int {
        match self {
            Inapplicable::EmptyAlphabet => 14,
            Inapplicable::NoObservedEvent => 17,
        }
    }

    proof fn lemma_signature(member: Inapplicable)
        ensures
            member.token().len() == member.signature(),
    {
        match member {
            Inapplicable::EmptyAlphabet => reveal_strlit("empty-alphabet"),
            Inapplicable::NoObservedEvent => reveal_strlit("no-observed-event"),
        }
    }

    /// Distinct members have distinct tokens.
    pub proof fn lemma_token_injective(a: Inapplicable, b: Inapplicable)
        ensures
            a.token() == b.token() ==> a == b,
    {
        Inapplicable::lemma_signature(a);
        Inapplicable::lemma_signature(b);
    }

}


/// How a selection fails to preserve the automaton's verdict-relevant structure.
#[derive(Debug, Clone, PartialEq, Eq)]
pub enum MonitorDisagreement {
    /// An event the automaton steps on is in the order and not in the selection.
    ObservedEventDropped {
        /// The first such event, in the order's topological order.
        id: Name,
    },
    /// An abstraction-relevant hidden event is in the order and not in the selection.
    AbstractionDependencyDropped {
        /// The first such event, in canonical order.
        id: Name,
    },
    /// The selection is not downward closed.
    NotCausallyClosed(ClosureViolation),
    /// The two runs reached different verdicts.
    VerdictDiverged {
        /// What the whole order concluded.
        whole: AutomatonVerdict,
        /// What the selection concluded.
        slice: AutomatonVerdict,
    },
}

/// What the monitor concluded about one selection.
#[derive(Debug, Clone, PartialEq, Eq)]
pub enum MonitorVerdict {
    /// The selection preserves the automaton's verdict-relevant structure: the only verdict
    /// that licenses `PropertyPreserving`.
    Preserving,
    /// The monitor disagrees with the selection, and names how.
    Divergent(MonitorDisagreement),
    /// The check does not apply to this execution, and names why.
    Inapplicable(Inapplicable),
}

impl MonitorVerdict {
    /// Whether this verdict licenses `PropertyPreserving`.
    pub fn is_preserving(&self) -> (preserving: bool)
        ensures
            preserving == (*self is Preserving),
    {
        matches!(self, MonitorVerdict::Preserving)
    }

    /// The stable token for this verdict.
    pub open spec fn token(&self) -> Seq<char> {
        match self {
            MonitorVerdict::Preserving => "property-preserving"@,
            MonitorVerdict::Divergent(_) => "monitor-disagreement"@,
            MonitorVerdict::Inapplicable(_) => "monitor-inapplicable"@,
        }
    }

    /// A stable token for an auditable intermediate's rendering.
    pub fn as_str(&self) -> (text: &'static str)
        ensures
            text@ == self.token(),
    {
        match self {
            MonitorVerdict::Preserving => "property-preserving",
            MonitorVerdict::Divergent(_) => "monitor-disagreement",
            MonitorVerdict::Inapplicable(_) => "monitor-inapplicable",
        }
    }
}

/// The members of `trace` that `selection` holds, in trace order.
pub open spec fn kept_in(trace: Seq<Seq<char>>, selection: Set<Seq<char>>) -> Seq<Seq<char>>
    decreases trace.len(),
{
    if trace.len() == 0 {
        Seq::empty()
    } else if selection.contains(trace.last()) {
        kept_in(trace.drop_last(), selection).push(trace.last())
    } else {
        kept_in(trace.drop_last(), selection)
    }
}

/// The state a run from `initial` reaches stepping on each of `observed` in turn.
pub open spec fn run_observed(table: Table, initial: Seq<char>, observed: Seq<Seq<char>>) -> Seq<char>
    decreases observed.len(),
{
    if observed.len() == 0 {
        initial
    } else {
        step(table, run_observed(table, initial, observed.drop_last()), observed.last())
    }
}

/// A run's final state is a function of the symbols it observed alone.
pub proof fn lemma_run_depends_on_observed(table: Table, alphabet: Set<Seq<char>>, initial: Seq<char>, trace: Seq<Seq<char>>)
    ensures
        final_state(table, alphabet, initial, trace) == run_observed(table, initial, observed_in(alphabet, trace)),
    decreases trace.len(),
{
    if trace.len() > 0 {
        lemma_run_depends_on_observed(table, alphabet, initial, trace.drop_last());
        if alphabet.contains(trace.last()) {
            let o = observed_in(alphabet, trace.drop_last()).push(trace.last());
            assert(o.drop_last() =~= observed_in(alphabet, trace.drop_last()));
        }
    }
}

/// Keeping a selection of a trace keeps its observations exactly when every observed member
/// of the trace is selected.
pub proof fn lemma_kept_observations(alphabet: Set<Seq<char>>, trace: Seq<Seq<char>>, selection: Set<Seq<char>>)
    requires
        forall|i: int| 0 <= i < trace.len() && alphabet.contains(trace[i]) ==> selection.contains(trace[i]),
    ensures
        observed_in(alphabet, kept_in(trace, selection)) == observed_in(alphabet, trace),
    decreases trace.len(),
{
    if trace.len() > 0 {
        let rest = trace.drop_last();
        assert forall|i: int| 0 <= i < rest.len() && alphabet.contains(rest[i]) implies selection.contains(rest[i]) by {
            assert(rest[i] == trace[i]);
        }
        lemma_kept_observations(alphabet, rest, selection);
        if selection.contains(trace.last()) {
            let k = kept_in(rest, selection).push(trace.last());
            assert(k.drop_last() =~= kept_in(rest, selection));
        } else {
            assert(!alphabet.contains(trace.last()));
        }
    }
}

/// What the monitor concludes about `selection` over an order with graph `graph`, listed
/// canonically as `listed`, against `automaton`: inapplicable when the automaton observes
/// nothing at all or nothing of this order; else divergent at the first observed event left
/// out in the order's canonical topological order, or at the least hidden dependency left out, or where the selection is not closed; else
/// preserving.
pub open spec fn monitor_outcome(
    automaton: PropertyAutomaton,
    graph: Graph,
    selection: Set<Seq<char>>,
    listed: Seq<Seq<char>>,
    verdict: MonitorVerdict,
) -> bool {
    let observed = graph.dom().intersect(automaton.symbols());
    let hidden = graph.dom().intersect(automaton.hidden_events());
    match verdict {
        MonitorVerdict::Inapplicable(Inapplicable::EmptyAlphabet) => automaton.symbols().is_empty(),
        MonitorVerdict::Inapplicable(Inapplicable::NoObservedEvent) => !automaton.symbols().is_empty() && observed.is_empty(),
        MonitorVerdict::Divergent(MonitorDisagreement::ObservedEventDropped { id }) => {
            &&& !automaton.symbols().is_empty()
            &&& observed.contains(id@)
            &&& !selection.contains(id@)
            &&& exists|k: int| {
                &&& 0 <= k < canonical_order(graph).len()
                &&& canonical_order(graph)[k] == id@
                &&& forall|m: int| 0 <= m < k && automaton.symbols().contains(canonical_order(graph)[m])
                    ==> selection.contains(canonical_order(graph)[m])
            }
        },
        MonitorVerdict::Divergent(MonitorDisagreement::AbstractionDependencyDropped { id }) => {
            &&& !automaton.symbols().is_empty() && !observed.is_empty()
            &&& observed.subset_of(selection)
            &&& least_of(hidden.difference(selection), id@)
        },
        MonitorVerdict::Divergent(MonitorDisagreement::NotCausallyClosed(violation)) => {
            &&& !automaton.symbols().is_empty() && !observed.is_empty()
            &&& observed.subset_of(selection)
            &&& hidden.subset_of(selection)
            &&& closure_report(graph, selection, listed, Some(violation))
        },
        MonitorVerdict::Divergent(MonitorDisagreement::VerdictDiverged { .. }) => false,
        MonitorVerdict::Preserving => {
            &&& !automaton.symbols().is_empty() && !observed.is_empty()
            &&& observed.subset_of(selection)
            &&& hidden.subset_of(selection)
            &&& selection.subset_of(graph.dom())
            &&& downward_closed(graph, selection)
        },
    }
}

/// The checker that licenses `PropertyPreserving`, built over an automaton supplied separately
/// from the one the filter was given.
#[derive(Debug)]
pub struct PropertyMonitor {
    automaton: PropertyAutomaton,
}

impl PropertyMonitor {
    /// The property this monitor checks against.
    pub closed spec fn property(&self) -> PropertyAutomaton {
        self.automaton
    }

    /// Monitor `automaton`.
    pub fn over(automaton: PropertyAutomaton) -> (monitor: PropertyMonitor)
        ensures
            monitor.property() == automaton,
    {
        PropertyMonitor { automaton }
    }

    /// The property this monitor checks against.
    pub fn automaton(&self) -> (automaton: &PropertyAutomaton)
        ensures
            *automaton == self.property(),
    {
        &self.automaton
    }

    /// Decide whether `selection` preserves the property automaton's verdict-relevant
    /// structure, relative to the whole of `order`.
    #[verifier::loop_isolation(false)]
    pub fn verdict(&self, order: &CausalOrder, selection: &NameSet) -> (verdict: MonitorVerdict)
        ensures
            monitor_outcome(self.property(), order.graph(), selection.contents(), selection.listing(), verdict),
    {
        let automaton = &self.automaton;
        let ghost graph = order.graph();
        let ghost symbols = automaton.symbols();
        if automaton.alphabet().is_empty() {
            return MonitorVerdict::Inapplicable(Inapplicable::EmptyAlphabet);
        }
        let topological = order.topological_order();
        let ghost t = spelled(topological@);
        let mut i: usize = 0;
        let mut any_observed = false;
        while i < topological.len()
            invariant
                t == spelled(topological@),
                i <= topological@.len(),
                any_observed == exists|m: int| 0 <= m < i && symbols.contains(t[m]),
                symbols == automaton.symbols(),
            decreases topological@.len() - i,
        {
            proof { assert(t[i as int] == topological@[i as int]@); }
            if automaton.observes(&topological[i]) {
                any_observed = true;
            }
            i = i + 1;
        }
        proof {
            assert(t.to_set() == graph.dom());
            assert(any_observed == !graph.dom().intersect(symbols).is_empty()) by {
                if any_observed {
                    let m = choose|m: int| 0 <= m < i && symbols.contains(t[m]);
                    assert(graph.dom().intersect(symbols).contains(t[m]));
                } else {
                    assert forall|x: Seq<char>| !graph.dom().intersect(symbols).contains(x) by {
                        if graph.dom().contains(x) && symbols.contains(x) {
                            assert(t.to_set().contains(x));
                            let m = choose|m: int| 0 <= m < t.len() && t[m] == x;
                        }
                    }
                    assert(graph.dom().intersect(symbols) =~= Set::<Seq<char>>::empty());
                }
            }
        }
        if !any_observed {
            return MonitorVerdict::Inapplicable(Inapplicable::NoObservedEvent);
        }
        let mut sliced: Vec<Name> = Vec::new();
        let mut i: usize = 0;
        while i < topological.len()
            invariant
                t == spelled(topological@),
                i <= topological@.len(),
                spelled(sliced@) == kept_in(t.subrange(0, i as int), selection.contents()),
            decreases topological@.len() - i,
        {
            proof {
                assert(t[i as int] == topological@[i as int]@);
                let prefix = t.subrange(0, i + 1);
                assert(prefix.drop_last() =~= t.subrange(0, i as int));
                assert(prefix.last() == t[i as int]);
            }
            if selection.contains(&topological[i]) {
                let ghost before = sliced@;
                sliced.push(topological[i].clone());
                proof { assert(spelled(sliced@) =~= spelled(before).push(t[i as int])); }
            }
            i = i + 1;
        }
        proof { assert(t.subrange(0, i as int) =~= t); }
        let whole_run = automaton.run(topological.as_slice());
        let slice_run = automaton.run(sliced.as_slice());

        let whole_observed = whole_run.observed();
        let mut k: usize = 0;
        while k < whole_observed.len()
            invariant
                spelled(whole_observed@) == observed_in(symbols, t),
                k <= whole_observed@.len(),
                forall|m: int| 0 <= m < k ==> selection.contents().contains(spelled(whole_observed@)[m]),
            decreases whole_observed@.len() - k,
        {
            proof { assert(spelled(whole_observed@)[k as int] == whole_observed@[k as int]@); }
            if !selection.contains(&whole_observed[k]) {
                let id = whole_observed[k].clone();
                proof {
                    lemma_observed_position(symbols, t, k as int);
                    let j = choose|j: int| 0 <= j < t.len() && t[j] == id@ && symbols.contains(id@)
                        && forall|m: int| 0 <= m < j && symbols.contains(t[m])
                            ==> observed_in(symbols, t).subrange(0, k as int).contains(t[m]);
                    assert forall|m: int| 0 <= m < j && symbols.contains(t[m]) implies selection.contents().contains(t[m]) by {
                        let w = choose|w: int| 0 <= w < k && observed_in(symbols, t).subrange(0, k as int)[w] == t[m];
                        assert(spelled(whole_observed@)[w] == t[m]);
                    }
                    assert(t.to_set().contains(id@));
                    assert(graph.dom().intersect(symbols).contains(id@));
                }
                return MonitorVerdict::Divergent(MonitorDisagreement::ObservedEventDropped { id });
            }
            k = k + 1;
        }
        proof {
            assert forall|m: int| 0 <= m < t.len() && symbols.contains(t[m]) implies selection.contents().contains(t[m]) by {
                lemma_observed_contains(symbols, t, m);
                let w = choose|w: int| 0 <= w < observed_in(symbols, t).len() && observed_in(symbols, t)[w] == t[m];
            }
            assert(graph.dom().intersect(symbols).subset_of(selection.contents())) by {
                assert forall|x: Seq<char>| graph.dom().intersect(symbols).contains(x) implies selection.contents().contains(x) by {
                    assert(t.to_set().contains(x));
                    let m = choose|m: int| 0 <= m < t.len() && t[m] == x;
                }
            }
        }

        let hidden_set = automaton.hidden_dependencies();
        let hidden = hidden_set.members();
        let mut h: usize = 0;
        while h < hidden.len()
            invariant
                spelled(hidden@) == hidden_set.listing(),
                hidden_set.contents() == automaton.hidden_events(),
                crate::name::strictly_ascending(spelled(hidden@)),
                h <= hidden@.len(),
                graph == order.graph(),
                forall|m: int| 0 <= m < h && graph.dom().contains(spelled(hidden@)[m]) ==> selection.contents().contains(spelled(hidden@)[m]),
            decreases hidden@.len() - h,
        {
            proof { assert(spelled(hidden@)[h as int] == hidden@[h as int]@); }
            if order.contains(&hidden[h]) && !selection.contains(&hidden[h]) {
                let id = hidden[h].clone();
                proof {
                    let gap = graph.dom().intersect(automaton.hidden_events()).difference(selection.contents());
                    assert forall|y: Seq<char>| gap.contains(y) implies !crate::name::precedes(y, id@) by {
                        let w = choose|w: int| 0 <= w < spelled(hidden@).len() && spelled(hidden@)[w] == y;
                        if w > h {
                            crate::name::lemma_precedes_order(id@, y, id@);
                        } else {
                            crate::name::lemma_precedes_order(y, y, y);
                        }
                    }
                }
                return MonitorVerdict::Divergent(MonitorDisagreement::AbstractionDependencyDropped { id });
            }
            h = h + 1;
        }
        proof {
            assert forall|x: Seq<char>| graph.dom().intersect(automaton.hidden_events()).contains(x) implies selection.contents().contains(x) by {
                let w = choose|w: int| 0 <= w < spelled(hidden@).len() && spelled(hidden@)[w] == x;
            }
        }

        if let Some(violation) = order.closure_violation(selection) {
            return MonitorVerdict::Divergent(MonitorDisagreement::NotCausallyClosed(violation));
        }

        proof {
            lemma_kept_observations(symbols, t, selection.contents());
            lemma_run_depends_on_observed(automaton.table(), symbols, automaton.start(), t);
            lemma_run_depends_on_observed(automaton.table(), symbols, automaton.start(), spelled(sliced@));
        }
        if whole_run.verdict() != slice_run.verdict() {
            proof { assert(false); }
            return MonitorVerdict::Divergent(MonitorDisagreement::VerdictDiverged {
                whole: whole_run.verdict(),
                slice: slice_run.verdict(),
            });
        }
        MonitorVerdict::Preserving
    }
}

/// Every observed member of a trace appears among its observations.
pub proof fn lemma_observed_contains(alphabet: Set<Seq<char>>, trace: Seq<Seq<char>>, m: int)
    requires
        0 <= m < trace.len(),
        alphabet.contains(trace[m]),
    ensures
        observed_in(alphabet, trace).contains(trace[m]),
    decreases trace.len(),
{
    let o = observed_in(alphabet, trace);
    if m == trace.len() - 1 {
        assert(o.last() == trace[m]);
        assert(o[o.len() - 1] == trace[m]);
    } else {
        lemma_observed_contains(alphabet, trace.drop_last(), m);
        let inner = observed_in(alphabet, trace.drop_last());
        let w = choose|w: int| 0 <= w < inner.len() && inner[w] == trace[m];
        if alphabet.contains(trace.last()) {
            assert(o[w] == trace[m]);
        }
    }
}

/// The `k`th observation sits at some position of the trace, and every observed member of the
/// trace before that position is among the first `k` observations.
pub proof fn lemma_observed_position(alphabet: Set<Seq<char>>, trace: Seq<Seq<char>>, k: int)
    requires
        0 <= k < observed_in(alphabet, trace).len(),
    ensures
        exists|j: int| 0 <= j < trace.len() && trace[j] == observed_in(alphabet, trace)[k] && alphabet.contains(trace[j])
            && forall|m: int| 0 <= m < j && alphabet.contains(trace[m])
                ==> observed_in(alphabet, trace).subrange(0, k).contains(trace[m]),
    decreases trace.len(),
{
    let rest = trace.drop_last();
    let o = observed_in(alphabet, trace);
    let inner = observed_in(alphabet, rest);
    if alphabet.contains(trace.last()) && k == inner.len() {
        let j = trace.len() - 1;
        assert(o[k] == trace[j]);
        assert forall|m: int| 0 <= m < j && alphabet.contains(trace[m]) implies o.subrange(0, k).contains(trace[m]) by {
            assert(rest[m] == trace[m]);
            lemma_observed_contains(alphabet, rest, m);
            let w = choose|w: int| 0 <= w < inner.len() && inner[w] == trace[m];
            assert(o.subrange(0, k)[w] == trace[m]);
        }
    } else {
        assert(k < inner.len());
        assert(o[k] == inner[k]);
        lemma_observed_position(alphabet, rest, k);
        let j = choose|j: int| 0 <= j < rest.len() && rest[j] == inner[k] && alphabet.contains(rest[j])
            && forall|m: int| 0 <= m < j && alphabet.contains(rest[m]) ==> inner.subrange(0, k).contains(rest[m]);
        assert(trace[j] == rest[j]);
        assert forall|m: int| 0 <= m < j && alphabet.contains(trace[m]) implies o.subrange(0, k).contains(trace[m]) by {
            assert(rest[m] == trace[m]);
            assert(inner.subrange(0, k).contains(rest[m]));
            let w = choose|w: int| 0 <= w < k && inner.subrange(0, k)[w] == rest[m];
            assert(o.subrange(0, k)[w] == trace[m]);
        }
    }
}


impl Inapplicable {
    /// Why the check does not apply.
    pub open spec fn explanation(&self) -> Seq<char> {
        match self {
            Inapplicable::EmptyAlphabet =>
                "the property automaton declares no transitions, so it observes nothing and preserving it is not a checkable claim"@,
            Inapplicable::NoObservedEvent =>
                "no candidate of this causal order is observed by the property automaton, so the two runs agree vacuously and nothing was checked"@,
        }
    }

    /// Why the check does not apply.
    pub fn message(&self) -> (text: String)
        ensures
            text@ == self.explanation(),
    {
        let mut out = String::new();
        match self {
            Inapplicable::EmptyAlphabet => crate::json::write_raw(&mut out,
                "the property automaton declares no transitions, so it observes nothing and preserving it is not a checkable claim"),
            Inapplicable::NoObservedEvent => crate::json::write_raw(&mut out,
                "no candidate of this causal order is observed by the property automaton, so the two runs agree vacuously and nothing was checked"),
        }
        out
    }
}

impl MonitorDisagreement {
    /// How the selection disagrees with the automaton.
    pub open spec fn explanation(&self) -> Seq<char> {
        match self {
            MonitorDisagreement::ObservedEventDropped { id } =>
                "`"@ + id@ + "` is observed by the property automaton and is not selected; the slice's run and the whole order's run observe different sequences"@,
            MonitorDisagreement::AbstractionDependencyDropped { id } =>
                "`"@ + id@ + "` is an abstraction-relevant hidden event and is not selected; no observer publishing it is not a ground for excluding it"@,
            MonitorDisagreement::NotCausallyClosed(violation) =>
                violation.explanation() + "; a slice that is not causally closed cannot be property-preserving on this argument"@,
            MonitorDisagreement::VerdictDiverged { whole, slice } =>
                "the whole order runs to `"@ + whole.token() + "` and the selection runs to `"@ + slice.token() + "`"@,
        }
    }

    /// How the selection disagrees with the automaton.
    pub fn message(&self) -> (text: String)
        ensures
            text@ == self.explanation(),
    {
        let mut out = String::new();
        match self {
            MonitorDisagreement::ObservedEventDropped { id } => {
                crate::json::write_raw(&mut out, "`");
                crate::json::write_raw(&mut out, id.as_str());
                crate::json::write_raw(&mut out,
                    "` is observed by the property automaton and is not selected; the slice's run and the whole order's run observe different sequences");
            },
            MonitorDisagreement::AbstractionDependencyDropped { id } => {
                crate::json::write_raw(&mut out, "`");
                crate::json::write_raw(&mut out, id.as_str());
                crate::json::write_raw(&mut out,
                    "` is an abstraction-relevant hidden event and is not selected; no observer publishing it is not a ground for excluding it");
            },
            MonitorDisagreement::NotCausallyClosed(violation) => {
                let inner = violation.message();
                crate::json::write_raw(&mut out, inner.as_str());
                crate::json::write_raw(&mut out,
                    "; a slice that is not causally closed cannot be property-preserving on this argument");
            },
            MonitorDisagreement::VerdictDiverged { whole, slice } => {
                crate::json::write_raw(&mut out, "the whole order runs to `");
                crate::json::write_raw(&mut out, whole.as_str());
                crate::json::write_raw(&mut out, "` and the selection runs to `");
                crate::json::write_raw(&mut out, slice.as_str());
                crate::json::write_raw(&mut out, "`");
            },
        }
        proof { assert(out@ =~= self.explanation()); }
        out
    }
}

impl MonitorVerdict {
    /// What the monitor concluded, as a sentence.
    pub open spec fn explanation(&self) -> Seq<char> {
        match self {
            MonitorVerdict::Preserving => "the selection preserves the property automaton's verdict-relevant structure"@,
            MonitorVerdict::Divergent(disagreement) => disagreement.explanation(),
            MonitorVerdict::Inapplicable(reason) => reason.explanation(),
        }
    }

    /// What the monitor concluded, as a sentence.
    pub fn message(&self) -> (text: String)
        ensures
            text@ == self.explanation(),
    {
        match self {
            MonitorVerdict::Preserving => {
                let mut out = String::new();
                crate::json::write_raw(&mut out, "the selection preserves the property automaton's verdict-relevant structure");
                out
            },
            MonitorVerdict::Divergent(disagreement) => disagreement.message(),
            MonitorVerdict::Inapplicable(reason) => reason.message(),
        }
    }
}

} // verus!
