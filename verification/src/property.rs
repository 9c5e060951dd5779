//! The finite, deterministic property automaton stage 3 is directed by, its declared
//! coverage, and the property filter.

use vstd::prelude::*;

use crate::causal::{closure_of, downward_closed, is_backward_closure, law_backward_closure_is_unique, CausalError, CausalOrder};
use crate::name::{precedes, spelled, strictly_ascending, Name, NameSet};
use crate::omission::OmissionReason;

verus! {

/// What a run of the automaton concluded.
#[derive(Debug, Clone, Copy, PartialEq, Eq, Hash, PartialOrd, Ord, Structural)]
pub enum AutomatonVerdict {
    /// The run ended outside every violating state.
    Satisfied,
    /// The run ended in a violating state.
    Violated,
}

impl AutomatonVerdict {
    /// Every member, in declaration order.
    pub const ALL: [AutomatonVerdict; 2] = [
        AutomatonVerdict::Satisfied,
        AutomatonVerdict::Violated,
    ];

    /// The member's position in declaration order.
    pub open spec fn rank(self) -> int {
        match self {
            AutomatonVerdict::Satisfied => 0,
            AutomatonVerdict::Violated => 1,
        }
    }

    /// `ALL` lists every member at its rank.
    pub proof fn lemma_all_lists(member: AutomatonVerdict)
        ensures
            0 <= member.rank() < 2,
            AutomatonVerdict::ALL@[member.rank()] == member,
    {
    }

    /// The member's stable token.
    pub open spec fn token(self) -> Seq<char> {
        match self {
            AutomatonVerdict::Satisfied => "satisfied"@,
            AutomatonVerdict::Violated => "violated"@,
        }
    }

    /// The member's stable token.
    pub fn as_str(self) -> (text: &'static str)
        ensures
            text@ == self.token(),
    {
        match self {
            AutomatonVerdict::Satisfied => "satisfied",
            AutomatonVerdict::Violated => "violated",
        }
    }

    /// The token's length and the characters that tell members' tokens apart.
    pub open spec fn signature(self) -> int {
        match self {
            AutomatonVerdict::Satisfied => 9,
            AutomatonVerdict::Violated => 8,
        }
    }

    proof fn lemma_signature(member: AutomatonVerdict)
        ensures
            member.token().len() == member.signature(),
    {
        match member {
            AutomatonVerdict::Satisfied => reveal_strlit("satisfied"),
            AutomatonVerdict::Violated => reveal_strlit("violated"),
        }
    }

    /// Distinct members have distinct tokens.
    pub proof fn lemma_token_injective(a: AutomatonVerdict, b: AutomatonVerdict)
        ensures
            a.token() == b.token() ==> a == b,
    {
        AutomatonVerdict::lemma_signature(a);
        AutomatonVerdict::lemma_signature(b);
    }

}

/// Whether the automaton's relevance declaration names everything the property can depend on.
#[derive(Debug, Clone, Copy, PartialEq, Eq, PartialOrd, Ord, Structural)]
pub enum Coverage {
    /// The producer declares the relevance set exhaustive: a stage-3 drop is then a proof.
    Total,
    /// The producer declares the relevance set partial, and names why.
    Partial {
        /// Why the declaration is incomplete.
        reason: CoverageGap,
    },
}

impl Coverage {
    /// The manifest reason a stage-3 drop is recorded under, given this declaration.
    pub fn omission_reason(&self) -> (reason: OmissionReason)
        ensures
            reason == if *self == Coverage::Total {
                OmissionReason::SliceIrrelevant
            } else {
                OmissionReason::HeuristicCutoff
            },
    {
        match self {
            Coverage::Total => OmissionReason::SliceIrrelevant,
            Coverage::Partial { .. } => OmissionReason::HeuristicCutoff,
        }
    }

    /// Whether non-relevance under this declaration is a proof.
    pub fn is_total(&self) -> (total: bool)
        ensures
            total == (*self == Coverage::Total),
    {
        matches!(self, Coverage::Total)
    }
}

/// Why an automaton's relevance declaration is only partial.
#[derive(Debug, Clone, Copy, PartialEq, Eq, Hash, PartialOrd, Ord, Structural)]
pub enum CoverageGap {
    /// The abstraction's hidden dependencies are not fully enumerated.
    UnenumeratedAbstraction,
    /// The property has structure this automaton does not model.
    UnsupportedPropertyFragment,
    /// The alphabet could not be fully resolved against the candidate identities.
    InsufficientTelemetry,
}

impl CoverageGap {
    /// Every member, in declaration order.
    pub const ALL: [CoverageGap; 3] = [
        CoverageGap::UnenumeratedAbstraction,
        CoverageGap::UnsupportedPropertyFragment,
        CoverageGap::InsufficientTelemetry,
    ];

    /// The member's position in declaration order.
    pub open spec fn rank(self) -> int {
        match self {
            CoverageGap::UnenumeratedAbstraction => 0,
            CoverageGap::UnsupportedPropertyFragment => 1,
            CoverageGap::InsufficientTelemetry => 2,
        }
    }

    /// `ALL` lists every member at its rank.
    pub proof fn lemma_all_lists(member: CoverageGap)
        ensures
            0 <= member.rank() < 3,
            CoverageGap::ALL@[member.rank()] == member,
    {
    }

    /// The member's stable token.
    pub open spec fn token(self) -> Seq<char> {
        match self {
            CoverageGap::UnenumeratedAbstraction => "unenumerated-abstraction"@,
            CoverageGap::UnsupportedPropertyFragment => "unsupported-property-fragment"@,
            CoverageGap::InsufficientTelemetry => "insufficient-telemetry"@,
        }
    }

    /// The member's stable token.
    pub fn as_str(self) -> (text: &'static str)
        ensures
            text@ == self.token(),
    {
        match self {
            CoverageGap::UnenumeratedAbstraction => "unenumerated-abstraction",
            CoverageGap::UnsupportedPropertyFragment => "unsupported-property-fragment",
            CoverageGap::InsufficientTelemetry => "insufficient-telemetry",
        }
    }

    /// The token's length and the characters that tell members' tokens apart.
    pub open spec fn signature(self) -> int {
        match self {
            CoverageGap::UnenumeratedAbstraction => 24,
            CoverageGap::UnsupportedPropertyFragment => 29,
            CoverageGap::InsufficientTelemetry => 22,
        }
    }

    proof fn lemma_signature(member: CoverageGap)
        ensures
            member.token().len() == member.signature(),
    {
        match member {
            CoverageGap::UnenumeratedAbstraction => reveal_strlit("unenumerated-abstraction"),
            CoverageGap::UnsupportedPropertyFragment => reveal_strlit("unsupported-property-fragment"),
            CoverageGap::InsufficientTelemetry => reveal_strlit("insufficient-telemetry"),
        }
    }

    /// Distinct members have distinct tokens.
    pub proof fn lemma_token_injective(a: CoverageGap, b: CoverageGap)
        ensures
            a.token() == b.token() ==> a == b,
    {
        CoverageGap::lemma_signature(a);
        CoverageGap::lemma_signature(b);
    }

}


/// One state of a [`PropertyAutomaton`].
#[derive(Debug, PartialEq, Eq)]
pub struct AutomatonState {
    name: Name,
}

impl Clone for AutomatonState {
    fn clone(&self) -> (copy: AutomatonState)
        ensures
            copy@ == self@,
    {
        AutomatonState { name: self.name.clone() }
    }
}

impl View for AutomatonState {
    type V = Seq<char>;

    closed spec fn view(&self) -> Seq<char> {
        self.name@
    }
}

impl AutomatonState {
    /// Name a state.
    pub fn new(name: Name) -> (state: AutomatonState)
        ensures
            state@ == name@,
    {
        AutomatonState { name }
    }

    /// The state's identity.
    pub fn name(&self) -> (name: &Name)
        ensures
            name@ == self@,
    {
        &self.name
    }
}

/// A transition table as identifiers: `(from, symbol, to)` triples.
pub type Table = Seq<(Seq<char>, Seq<char>, Seq<char>)>;

/// Where `symbol` takes `state` under `table`, if a transition says.
pub open spec fn target(table: Table, state: Seq<char>, symbol: Seq<char>) -> Option<Seq<char>>
    decreases table.len(),
{
    if table.len() == 0 {
        None
    } else if table.last().0 == state && table.last().1 == symbol {
        Some(table.last().2)
    } else {
        target(table.drop_last(), state, symbol)
    }
}

/// One step: the transition's target, or the same state when no transition leaves it on
/// `symbol` (a missing transition holds the state rather than trapping).
pub open spec fn step(table: Table, state: Seq<char>, symbol: Seq<char>) -> Seq<char> {
    match target(table, state, symbol) {
        Some(to) => to,
        None => state,
    }
}

/// The state a run from `initial` over `trace` ends in; symbols outside `alphabet` are not
/// observed and do not step the automaton.
pub open spec fn final_state(
    table: Table,
    alphabet: Set<Seq<char>>,
    initial: Seq<char>,
    trace: Seq<Seq<char>>,
) -> Seq<char>
    decreases trace.len(),
{
    if trace.len() == 0 {
        initial
    } else {
        let before = final_state(table, alphabet, initial, trace.drop_last());
        if alphabet.contains(trace.last()) {
            step(table, before, trace.last())
        } else {
            before
        }
    }
}

/// The symbols of `trace` the automaton observes, in the order supplied.
pub open spec fn observed_in(alphabet: Set<Seq<char>>, trace: Seq<Seq<char>>) -> Seq<Seq<char>>
    decreases trace.len(),
{
    if trace.len() == 0 {
        Seq::empty()
    } else if alphabet.contains(trace.last()) {
        observed_in(alphabet, trace.drop_last()).push(trace.last())
    } else {
        observed_in(alphabet, trace.drop_last())
    }
}

/// Whether the `j`th transition repeats an earlier one's `(from, symbol)`.
pub open spec fn transition_repeats_at(table: Table, j: int) -> bool {
    exists|k: int| 0 <= k < j && table[k].0 == table[j].0 && table[k].1 == table[j].1
}

/// The states a declaration names: the initial state and every transition's two ends.
pub open spec fn named_states(initial: Seq<char>, table: Table) -> Set<Seq<char>> {
    Set::new(|s: Seq<char>| s == initial || exists|k: int| 0 <= k < table.len() && (table[k].0 == s || table[k].2 == s))
}

/// The symbols a table steps on.
pub open spec fn symbols_of(table: Table) -> Set<Seq<char>> {
    Set::new(|s: Seq<char>| exists|k: int| 0 <= k < table.len() && table[k].1 == s)
}

/// The identifier triples a list of declared transitions spells.
pub open spec fn table_of(transitions: Seq<(AutomatonState, Name, AutomatonState)>) -> Table {
    transitions.map_values(|t: (AutomatonState, Name, AutomatonState)| (t.0@, t.1@, t.2@))
}

/// A finite, deterministic property automaton over candidate identities: stage 3's premise.
#[derive(Debug, PartialEq, Eq)]
pub struct PropertyAutomaton {
    initial: AutomatonState,
    transitions: Vec<(AutomatonState, Name, AutomatonState)>,
    alphabet: NameSet,
    violating: NameSet,
    hidden: NameSet,
    coverage: Coverage,
}

impl PropertyAutomaton {
    /// The transition table.
    pub closed spec fn table(&self) -> Table {
        table_of(self.transitions@)
    }

    /// The state a run starts in.
    pub closed spec fn start(&self) -> Seq<char> {
        self.initial@
    }

    /// The symbols the automaton steps on.
    pub closed spec fn symbols(&self) -> Set<Seq<char>> {
        self.alphabet.contents()
    }

    /// The states whose occupancy at the end of a run is a violation.
    pub closed spec fn violating_states(&self) -> Set<Seq<char>> {
        self.violating.contents()
    }

    /// The abstraction-relevant events no observer publishes.
    pub closed spec fn hidden_events(&self) -> Set<Seq<char>> {
        self.hidden.contents()
    }

    /// The coverage the producer declared.
    pub closed spec fn declared_coverage(&self) -> Coverage {
        self.coverage
    }

    /// The relevance set: the alphabet together with the hidden dependencies.
    pub open spec fn relevance(&self) -> Set<Seq<char>> {
        self.symbols().union(self.hidden_events())
    }

    /// What a run over `trace` concludes.
    pub open spec fn verdict_over(&self, trace: Seq<Seq<char>>) -> AutomatonVerdict {
        if self.violating_states().contains(final_state(self.table(), self.symbols(), self.start(), trace)) {
            AutomatonVerdict::Violated
        } else {
            AutomatonVerdict::Satisfied
        }
    }

    /// The state a run starts in.
    pub fn initial(&self) -> (initial: &AutomatonState)
        ensures
            initial@ == self.start(),
    {
        &self.initial
    }

    /// The events this automaton steps on.
    pub fn alphabet(&self) -> (alphabet: &NameSet)
        ensures
            alphabet.contents() == self.symbols(),
    {
        &self.alphabet
    }

    /// The abstraction-relevant events no observer publishes.
    pub fn hidden_dependencies(&self) -> (hidden: &NameSet)
        ensures
            hidden.contents() == self.hidden_events(),
    {
        &self.hidden
    }

    /// The coverage the producer declared.
    pub fn coverage(&self) -> (coverage: &Coverage)
        ensures
            *coverage == self.declared_coverage(),
    {
        &self.coverage
    }

    /// Whether this candidate is in the relevance set.
    pub fn is_relevant(&self, id: &Name) -> (relevant: bool)
        ensures
            relevant == self.relevance().contains(id@),
    {
        self.alphabet.contains(id) || self.hidden.contains(id)
    }

    /// Whether the automaton steps on this candidate.
    pub fn observes(&self, id: &Name) -> (observed: bool)
        ensures
            observed == self.symbols().contains(id@),
    {
        self.alphabet.contains(id)
    }

    /// Whether a state is violating.
    pub fn is_violating(&self, state: &AutomatonState) -> (violating: bool)
        ensures
            violating == self.violating_states().contains(state@),
    {
        self.violating.contains(&state.name)
    }

    /// The relevance set: the alphabet together with the hidden dependencies.
    pub fn relevant(&self) -> (relevant: NameSet)
        ensures
            relevant.contents() == self.relevance(),
    {
        let mut relevant = self.alphabet.clone();
        let hidden = self.hidden.members();
        let mut i: usize = 0;
        while i < hidden.len()
            invariant
                spelled(hidden@) == self.hidden.listing(),
                i <= hidden@.len(),
                relevant.contents() == self.alphabet.contents().union(self.hidden.listing().subrange(0, i as int).to_set()),
            decreases hidden@.len() - i,
        {
            relevant.insert(hidden[i].clone());
            proof {
                assert(spelled(hidden@)[i as int] == hidden@[i as int]@);
                assert(self.hidden.listing().subrange(0, i + 1) =~= self.hidden.listing().subrange(0, i as int).push(hidden@[i as int]@));
                crate::name::lemma_push_to_set(self.hidden.listing().subrange(0, i as int), hidden@[i as int]@);
                assert(relevant.contents() =~= self.alphabet.contents().union(self.hidden.listing().subrange(0, i + 1).to_set()));
            }
            i = i + 1;
        }
        proof {
            assert(self.hidden.listing().subrange(0, i as int) =~= self.hidden.listing());
            assert(relevant.contents() =~= self.relevance());
        }
        relevant
    }

    /// The state `symbol` takes `state` to.
    fn step_from(&self, state: &AutomatonState, symbol: &Name) -> (next: AutomatonState)
        ensures
            next@ == step(self.table(), state@, symbol@),
    {
        let mut j = self.transitions.len();
        proof { assert(self.table().subrange(0, j as int) =~= self.table()); }
        while j > 0
            invariant
                j <= self.transitions@.len(),
                target(self.table(), state@, symbol@) == target(self.table().subrange(0, j as int), state@, symbol@),
            decreases j,
        {
            let t = &self.transitions[j - 1];
            proof {
                let prefix = self.table().subrange(0, j as int);
                assert(prefix.last() == (t.0@, t.1@, t.2@));
                assert(prefix.drop_last() =~= self.table().subrange(0, j - 1));
            }
            if t.0.name.same(&state.name) && t.1.same(symbol) {
                return t.2.clone();
            }
            j = j - 1;
        }
        state.clone()
    }

    /// Run the automaton over `trace`, a sequence of candidate identities in a causal order.
    pub fn run(&self, trace: &[Name]) -> (run: AutomatonRun)
        ensures
            spelled(run.observed@) == observed_in(self.symbols(), spelled(trace@)),
            run.visited@.len() == run.observed@.len() + 1,
            run.visited@[0]@ == self.start(),
            forall|j: int| 0 <= j < run.observed@.len() ==> (#[trigger] run.visited@[j + 1])@ == step(
                self.table(),
                run.visited@[j]@,
                run.observed@[j]@,
            ),
            run.visited@.last()@ == final_state(self.table(), self.symbols(), self.start(), spelled(trace@)),
            run.verdict == self.verdict_over(spelled(trace@)),
    {
        let ghost symbols = spelled(trace@);
        let mut state = self.initial.clone();
        let mut visited: Vec<AutomatonState> = Vec::new();
        visited.push(state.clone());
        let mut observed: Vec<Name> = Vec::new();
        let mut i: usize = 0;
        while i < trace.len()
            invariant
                symbols == spelled(trace@),
                i <= trace@.len(),
                state@ == final_state(self.table(), self.symbols(), self.start(), symbols.subrange(0, i as int)),
                spelled(observed@) == observed_in(self.symbols(), symbols.subrange(0, i as int)),
                visited@.len() == observed@.len() + 1,
                visited@[0]@ == self.start(),
                forall|j: int| 0 <= j < observed@.len() ==> (#[trigger] visited@[j + 1])@ == step(
                    self.table(),
                    visited@[j]@,
                    observed@[j]@,
                ),
                visited@.last()@ == state@,
            decreases trace@.len() - i,
        {
            let symbol = &trace[i];
            proof {
                let prefix = symbols.subrange(0, i + 1);
                assert(prefix.drop_last() =~= symbols.subrange(0, i as int));
                assert(prefix.last() == symbol@);
            }
            if self.alphabet.contains(symbol) {
                let ghost before = observed@;
                let ghost before_visited = visited@;
                let ghost from = state@;
                observed.push(symbol.clone());
                proof { assert(spelled(observed@) =~= spelled(before).push(symbol@)); }
                state = self.step_from(&state, symbol);
                visited.push(state.clone());
                proof {
                    assert(visited@[before.len() as int]@ == from);
                    assert forall|j: int| 0 <= j < observed@.len() implies (#[trigger] visited@[j + 1])@ == step(
                        self.table(),
                        visited@[j]@,
                        observed@[j]@,
                    ) by {
                        if j < before.len() {
                            assert(visited@[j + 1] == before_visited[j + 1]);
                            assert(visited@[j] == before_visited[j]);
                            assert(observed@[j] == before[j]);
                        }
                    }
                }
            }
            i = i + 1;
        }
        proof { assert(symbols.subrange(0, i as int) =~= symbols); }
        let verdict = if self.is_violating(&state) {
            AutomatonVerdict::Violated
        } else {
            AutomatonVerdict::Satisfied
        };
        AutomatonRun { observed, visited, verdict }
    }
}

/// One run of a [`PropertyAutomaton`]: what it observed, where it went, what it concluded.
#[derive(Debug, PartialEq, Eq)]
pub struct AutomatonRun {
    /// The alphabet symbols the run stepped on, in the order they were supplied.
    pub observed: Vec<Name>,
    /// The states the run visited, starting with the initial state.
    pub visited: Vec<AutomatonState>,
    /// What the run concluded.
    pub verdict: AutomatonVerdict,
}

impl AutomatonRun {
    /// The alphabet symbols the run stepped on, in the order they were supplied.
    pub fn observed(&self) -> (observed: &[Name])
        ensures
            observed@ == self.observed@,
    {
        self.observed.as_slice()
    }

    /// The states the run visited, starting with the initial state.
    pub fn visited(&self) -> (visited: &[AutomatonState])
        ensures
            visited@ == self.visited@,
    {
        self.visited.as_slice()
    }

    /// The state the run ended in.
    pub fn final_state(&self) -> (last: &AutomatonState)
        requires
            self.visited@.len() > 0,
        ensures
            *last == self.visited@.last(),
    {
        &self.visited[self.visited.len() - 1]
    }

    /// What the run concluded.
    pub fn verdict(&self) -> (verdict: AutomatonVerdict)
        ensures
            verdict == self.verdict,
    {
        self.verdict
    }
}


/// A way a [`PropertyAutomaton`] fails to be one.
#[derive(Debug, Clone, PartialEq, Eq)]
pub enum AutomatonError {
    /// One `(state, symbol)` pair is declared twice.
    TransitionRepeated {
        /// The state the transitions leave.
        state: AutomatonState,
        /// The symbol declared twice out of it.
        symbol: Name,
    },
    /// A violating state that no transition and no initial declaration names.
    UnknownState {
        /// The state that is not a state of this automaton.
        state: AutomatonState,
    },
    /// An event declared both observed and hidden.
    ObservedIsNotHidden {
        /// The event on both sides.
        id: Name,
    },
}

/// Whether `x` is the least member of `set` in canonical order.
pub open spec fn least_of(set: Set<Seq<char>>, x: Seq<char>) -> bool {
    set.contains(x) && forall|y: Seq<char>| set.contains(y) ==> !crate::name::precedes(y, x)
}

/// The states a list of declared states names.
pub open spec fn state_names(states: Seq<AutomatonState>) -> Set<Seq<char>> {
    states.map_values(|s: AutomatonState| s@).to_set()
}

/// What declaring an automaton yields: the automaton when no `(state, symbol)` repeats, every
/// violating state is a named state, and no event is both observed and hidden; otherwise
/// the first of those to fail, in that order, naming the first transition or the least
/// identifier at fault.
pub open spec fn automaton_outcome(
    initial: AutomatonState,
    transitions: Seq<(AutomatonState, Name, AutomatonState)>,
    violating: Seq<AutomatonState>,
    hidden: Seq<Name>,
    coverage: Coverage,
    outcome: Result<PropertyAutomaton, AutomatonError>,
) -> bool {
    let table = table_of(transitions);
    let repeated = exists|j: int| 0 <= j < table.len() && transition_repeats_at(table, j);
    let stray = state_names(violating).difference(named_states(initial@, table));
    let both = spelled(hidden).to_set().intersect(symbols_of(table));
    match outcome {
        Ok(automaton) => {
            &&& !repeated && stray.is_empty() && both.is_empty()
            &&& automaton.table() == table
            &&& automaton.start() == initial@
            &&& automaton.symbols() == symbols_of(table)
            &&& automaton.violating_states() == state_names(violating)
            &&& automaton.hidden_events() == spelled(hidden).to_set()
            &&& automaton.declared_coverage() == coverage
        },
        Err(AutomatonError::TransitionRepeated { state, symbol }) => exists|j: int| {
            &&& 0 <= j < table.len()
            &&& transition_repeats_at(table, j)
            &&& forall|k: int| 0 <= k < j ==> !transition_repeats_at(table, k)
            &&& state@ == table[j].0
            &&& symbol@ == table[j].1
        },
        Err(AutomatonError::UnknownState { state }) => !repeated && least_of(stray, state@),
        Err(AutomatonError::ObservedIsNotHidden { id }) => !repeated && stray.is_empty() && least_of(both, id@),
    }
}

/// The first member of `set`, in canonical order, that `other` lacks.
fn first_outside(set: &NameSet, other: &NameSet) -> (found: Option<Name>)
    ensures
        found is None ==> set.contents().subset_of(other.contents()),
        found matches Some(x) ==> least_of(set.contents().difference(other.contents()), x@),
{
    let members = set.members();
    let mut k: usize = 0;
    while k < members.len()
        invariant
            spelled(members@) == set.listing(),
            strictly_ascending(set.listing()),
            k <= members@.len(),
            forall|m: int| 0 <= m < k ==> other.contents().contains(set.listing()[m]),
        decreases members@.len() - k,
    {
        proof { assert(spelled(members@)[k as int] == members@[k as int]@); }
        if !other.contains(&members[k]) {
            proof {
                let x = members@[k as int]@;
                assert forall|y: Seq<char>| set.contents().difference(other.contents()).contains(y)
                    implies !crate::name::precedes(y, x) by {
                    let w = choose|w: int| 0 <= w < set.listing().len() && set.listing()[w] == y;
                    if w > k {
                        crate::name::lemma_precedes_order(x, y, x);
                    } else {
                        crate::name::lemma_precedes_order(y, y, y);
                    }
                }
            }
            return Some(members[k].clone());
        }
        k = k + 1;
    }
    proof {
        assert forall|y: Seq<char>| set.contents().contains(y) implies other.contents().contains(y) by {
            let w = choose|w: int| 0 <= w < set.listing().len() && set.listing()[w] == y;
        }
    }
    None
}

/// The first member of `set`, in canonical order, that `other` also holds.
fn first_shared(set: &NameSet, other: &NameSet) -> (found: Option<Name>)
    ensures
        found is None ==> set.contents().intersect(other.contents()).is_empty(),
        found matches Some(x) ==> least_of(set.contents().intersect(other.contents()), x@),
{
    let members = set.members();
    let mut k: usize = 0;
    while k < members.len()
        invariant
            spelled(members@) == set.listing(),
            strictly_ascending(set.listing()),
            k <= members@.len(),
            forall|m: int| 0 <= m < k ==> !other.contents().contains(set.listing()[m]),
        decreases members@.len() - k,
    {
        proof { assert(spelled(members@)[k as int] == members@[k as int]@); }
        if other.contains(&members[k]) {
            proof {
                let x = members@[k as int]@;
                assert forall|y: Seq<char>| set.contents().intersect(other.contents()).contains(y)
                    implies !crate::name::precedes(y, x) by {
                    let w = choose|w: int| 0 <= w < set.listing().len() && set.listing()[w] == y;
                    if w > k {
                        crate::name::lemma_precedes_order(x, y, x);
                    } else {
                        crate::name::lemma_precedes_order(y, y, y);
                    }
                }
            }
            return Some(members[k].clone());
        }
        k = k + 1;
    }
    proof {
        assert forall|y: Seq<char>| !set.contents().intersect(other.contents()).contains(y) by {
            if set.contents().contains(y) {
                let w = choose|w: int| 0 <= w < set.listing().len() && set.listing()[w] == y;
            }
        }
        assert(set.contents().intersect(other.contents()) =~= Set::<Seq<char>>::empty());
    }
    None
}

impl PropertyAutomaton {
    /// Build an automaton from `(from, symbol, to)` transitions; the alphabet is exactly the
    /// symbols appearing in them.
    pub fn new(
        initial: AutomatonState,
        transitions: Vec<(AutomatonState, Name, AutomatonState)>,
        violating: Vec<AutomatonState>,
        hidden: Vec<Name>,
        coverage: Coverage,
    ) -> (automaton: Result<PropertyAutomaton, AutomatonError>)
        ensures
            automaton_outcome(initial, transitions@, violating@, hidden@, coverage, automaton),
    {
        let ghost table = table_of(transitions@);
        let mut alphabet = NameSet::new();
        let mut states = NameSet::new();
        states.insert(initial.name.clone());
        let mut j: usize = 0;
        while j < transitions.len()
            invariant
                table == table_of(transitions@),
                j <= transitions@.len(),
                forall|m: int| 0 <= m < j ==> !transition_repeats_at(table, m),
                alphabet.contents() == symbols_of(table.subrange(0, j as int)),
                states.contents() == named_states(initial@, table.subrange(0, j as int)),
            decreases transitions@.len() - j,
        {
            let t = &transitions[j];
            proof { assert(table[j as int] == (t.0@, t.1@, t.2@)); }
            let mut k: usize = 0;
            while k < j
                invariant
                    table == table_of(transitions@),
                    j < transitions@.len(),
                    t == &transitions@[j as int],
                    forall|m: int| 0 <= m < j ==> !transition_repeats_at(table, m),
                    k <= j,
                    forall|m: int| 0 <= m < k ==> !(table[m].0 == table[j as int].0 && table[m].1 == table[j as int].1),
                decreases j - k,
            {
                let u = &transitions[k];
                proof { assert(table[k as int] == (u.0@, u.1@, u.2@)); }
                if u.0.name.same(&t.0.name) && u.1.same(&t.1) {
                    proof {
                        assert(transition_repeats_at(table, j as int));
                    }
                    let error = AutomatonError::TransitionRepeated { state: t.0.clone(), symbol: t.1.clone() };
                    proof {
                        assert(automaton_outcome(initial, transitions@, violating@, hidden@, coverage, Err(error)));
                    }
                    return Err(error);
                }
                k = k + 1;
            }
            alphabet.insert(t.1.clone());
            states.insert(t.0.name.clone());
            states.insert(t.2.name.clone());
            proof {
                let before = table.subrange(0, j as int);
                let after = table.subrange(0, j + 1);
                assert(after =~= before.push(table[j as int]));
                assert forall|x: Seq<char>| symbols_of(after).contains(x) <==> (symbols_of(before).contains(x) || x == t.1@) by {
                    if symbols_of(after).contains(x) {
                        let w = choose|w: int| 0 <= w < after.len() && after[w].1 == x;
                        if w < before.len() {
                            assert(before[w].1 == x);
                        }
                    }
                    if symbols_of(before).contains(x) {
                        let w = choose|w: int| 0 <= w < before.len() && before[w].1 == x;
                        assert(after[w].1 == x);
                    }
                    if x == t.1@ {
                        assert(after[j as int].1 == x);
                    }
                }
                assert(alphabet.contents() =~= symbols_of(after));
                assert forall|x: Seq<char>| named_states(initial@, after).contains(x)
                    <==> (named_states(initial@, before).contains(x) || x == t.0@ || x == t.2@) by {
                    if named_states(initial@, after).contains(x) && x != initial@ {
                        let w = choose|w: int| 0 <= w < after.len() && (after[w].0 == x || after[w].2 == x);
                        if w < before.len() {
                            assert(before[w].0 == x || before[w].2 == x);
                        }
                    }
                    if named_states(initial@, before).contains(x) && x != initial@ {
                        let w = choose|w: int| 0 <= w < before.len() && (before[w].0 == x || before[w].2 == x);
                        assert(after[w].0 == x || after[w].2 == x);
                    }
                    if x == t.0@ || x == t.2@ {
                        assert(after[j as int].0 == t.0@ && after[j as int].2 == t.2@);
                    }
                }
                assert(states.contents() =~= named_states(initial@, after));
            }
            j = j + 1;
        }
        proof {
            assert(table.subrange(0, j as int) =~= table);
        }
        let mut violating_set = NameSet::new();
        let mut v: usize = 0;
        while v < violating.len()
            invariant
                v <= violating@.len(),
                violating_set.contents() == violating@.subrange(0, v as int).map_values(|s: AutomatonState| s@).to_set(),
            decreases violating@.len() - v,
        {
            violating_set.insert(violating[v].name.clone());
            proof {
                let before = violating@.subrange(0, v as int).map_values(|s: AutomatonState| s@);
                let after = violating@.subrange(0, v + 1).map_values(|s: AutomatonState| s@);
                assert(after =~= before.push(violating@[v as int]@));
                crate::name::lemma_push_to_set(before, violating@[v as int]@);
            }
            v = v + 1;
        }
        proof {
            assert(violating@.subrange(0, v as int) =~= violating@);
        }
        if let Some(stray) = first_outside(&violating_set, &states) {
            let error = AutomatonError::UnknownState { state: AutomatonState { name: stray } };
            proof {
                assert(automaton_outcome(initial, transitions@, violating@, hidden@, coverage, Err(error)));
            }
            return Err(error);
        }
        let hidden_set = NameSet::of(hidden);
        if let Some(both) = first_shared(&hidden_set, &alphabet) {
            let error = AutomatonError::ObservedIsNotHidden { id: both };
            proof {
                assert(state_names(violating@).difference(named_states(initial@, table)) =~= Set::<Seq<char>>::empty());
                assert(automaton_outcome(initial, transitions@, violating@, hidden@, coverage, Err(error)));
            }
            return Err(error);
        }
        let automaton = PropertyAutomaton {
            initial,
            transitions,
            alphabet,
            violating: violating_set,
            hidden: hidden_set,
            coverage,
        };
        proof {
            assert(state_names(violating@).difference(named_states(initial@, table)) =~= Set::<Seq<char>>::empty());
        }
        Ok(automaton)
    }
}


/// Stage 3's computation: narrow a slice to what the property is directed at.
#[derive(Debug, Clone, Copy, PartialEq, Eq)]
pub struct PropertyFilter;

impl PropertyFilter {
    /// The property-directed sub-slice of `slice`: the backward closure of the slice members
    /// in the relevance set, intersected back with `slice`. Refuses, as the closure does, a
    /// seed that is not a node of `order`, naming the least such seed.
    pub fn retain(automaton: &PropertyAutomaton, order: &CausalOrder, slice: &NameSet) -> (retained: Result<NameSet, CausalError>)
        ensures
            retained is Ok <==> slice.contents().intersect(automaton.relevance()).subset_of(order.graph().dom()),
            retained matches Ok(kept) ==> kept.contents() == closure_of(
                order.graph(),
                slice.contents().intersect(automaton.relevance()),
            ).intersect(slice.contents()),
            retained matches Err(e) ==> e matches CausalError::UnknownEndpoint { id } && {
                let seeds = slice.contents().intersect(automaton.relevance());
                &&& seeds.contains(id@)
                &&& !order.graph().dom().contains(id@)
                &&& forall|y: Seq<char>| seeds.contains(y) && precedes(y, id@) ==> order.graph().dom().contains(y)
            },
    {
        let relevant = automaton.relevant();
        let seeds = slice.intersection(&relevant);
        let _canonical = seeds.members();
        let closed = match order.backward_closure(&seeds) {
            Ok(closed) => closed,
            Err(e) => {
                proof {
                    if let CausalError::UnknownEndpoint { id } = &e {
                        let k = choose|k: int| {
                            &&& 0 <= k < seeds.listing().len()
                            &&& seeds.listing()[k] == id@
                            &&& !order.graph().dom().contains(id@)
                            &&& forall|m: int| 0 <= m < k ==> order.graph().dom().contains(seeds.listing()[m])
                        };
                        assert(seeds.listing().to_set().contains(id@));
                        assert forall|y: Seq<char>| seeds.contents().contains(y) && precedes(y, id@) implies order.graph().dom().contains(y) by {
                            let m = choose|m: int| 0 <= m < seeds.listing().len() && seeds.listing()[m] == y;
                            if m >= k {
                                if m > k {
                                    assert(precedes(seeds.listing()[k], seeds.listing()[m]));
                                }
                                crate::name::lemma_precedes_order(y, id@, y);
                            }
                        }
                    }
                }
                return Err(e);
            },
        };
        proof {
            law_backward_closure_is_unique(order.graph(), seeds.contents(), closed.contents(), closed.contents());
        }
        Ok(closed.intersection(slice))
    }
}

/// The property filter keeps every relevant member of the slice, hidden dependencies
/// included: seeding from the relevance set rather than the alphabet is what keeps an
/// abstraction-relevant hidden event no observer publishes.
pub proof fn law_filter_keeps_relevant_members(graph: crate::causal::Graph, slice: Set<Seq<char>>, relevance: Set<Seq<char>>)
    requires
        slice.intersect(relevance).subset_of(graph.dom()),
        exists|c: Set<Seq<char>>| is_backward_closure(graph, slice.intersect(relevance), c),
    ensures
        slice.intersect(relevance).subset_of(closure_of(graph, slice.intersect(relevance)).intersect(slice)),
{
    let c = choose|c: Set<Seq<char>>| is_backward_closure(graph, slice.intersect(relevance), c);
    law_backward_closure_is_unique(graph, slice.intersect(relevance), c, c);
}

/// The property filter stays downward closed when its input was: over a downward-closed
/// slice of nodes it returns the seeds' own closure, which is downward closed.
pub proof fn law_filter_preserves_closure(graph: crate::causal::Graph, slice: Set<Seq<char>>, relevance: Set<Seq<char>>)
    requires
        slice.subset_of(graph.dom()),
        downward_closed(graph, slice),
        exists|c: Set<Seq<char>>| is_backward_closure(graph, slice.intersect(relevance), c),
    ensures
        closure_of(graph, slice.intersect(relevance)).intersect(slice) == closure_of(graph, slice.intersect(relevance)),
        downward_closed(graph, closure_of(graph, slice.intersect(relevance)).intersect(slice)),
{
    let c = choose|c: Set<Seq<char>>| is_backward_closure(graph, slice.intersect(relevance), c);
    law_backward_closure_is_unique(graph, slice.intersect(relevance), c, c);
    assert(c.subset_of(slice));
    assert(c.intersect(slice) =~= c);
}


impl AutomatonError {
    /// The refusal's explanation.
    pub open spec fn explanation(&self) -> Seq<char> {
        match self {
            AutomatonError::TransitionRepeated { state, symbol } =>
                "`"@ + state@ + "` declares two transitions on `"@ + symbol@
                    + "`; a nondeterministic automaton has no single run and therefore no deterministic verdict"@,
            AutomatonError::UnknownState { state } =>
                "`"@ + state@ + "` is declared violating but is not a state of this automaton"@,
            AutomatonError::ObservedIsNotHidden { id } =>
                "`"@ + id@ + "` is declared both observed and hidden; an event the automaton steps on is published to it, and the abstraction-relevant hidden events are the ones no observer publishes"@,
        }
    }

    /// The refusal's explanation.
    pub fn message(&self) -> (text: String)
        ensures
            text@ == self.explanation(),
    {
        let mut out = String::new();
        match self {
            AutomatonError::TransitionRepeated { state, symbol } => {
                crate::json::write_raw(&mut out, "`");
                crate::json::write_raw(&mut out, state.name().as_str());
                crate::json::write_raw(&mut out, "` declares two transitions on `");
                crate::json::write_raw(&mut out, symbol.as_str());
                crate::json::write_raw(&mut out,
                    "`; a nondeterministic automaton has no single run and therefore no deterministic verdict");
            },
            AutomatonError::UnknownState { state } => {
                crate::json::write_raw(&mut out, "`");
                crate::json::write_raw(&mut out, state.name().as_str());
                crate::json::write_raw(&mut out, "` is declared violating but is not a state of this automaton");
            },
            AutomatonError::ObservedIsNotHidden { id } => {
                crate::json::write_raw(&mut out, "`");
                crate::json::write_raw(&mut out, id.as_str());
                crate::json::write_raw(&mut out,
                    "` is declared both observed and hidden; an event the automaton steps on is published to it, and the abstraction-relevant hidden events are the ones no observer publishes");
            },
        }
        proof { assert(out@ =~= self.explanation()); }
        out
    }
}

} // verus!
